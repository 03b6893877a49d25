//! What a request for a background response is answered, case by case, and what its
//! snapshot holds.

use vstd::prelude::*;

use super::create;
use super::create::{ActionView, CreateRequest, EventView, OutcomeView, StateView};
use super::driver;
use super::http::HttpErrorView;
use super::json;
use super::json::JsonView;
use super::snapshot;
use super::snapshot::{
    CodecErrorView, CodecRequestView, ItemView, PagerView, RowView, StoredView,
};
use super::supervisor;
use super::worker;
use crate::crdt_kv::replica;
use crate::text;

verus! {

/// The answer has this status and this code.
pub open spec fn is_fault(e: HttpErrorView, status: int, code: Seq<char>) -> bool {
    e.status == status && e.code == code
}

// ---------------------------------------------------------------------------
// The input of the request
// ---------------------------------------------------------------------------
/// A snapshot is what came before, as it is, and then the input: each item of a list, one
/// message for a text, and nothing for anything else. It is accepted exactly where it has
/// at most 100 items.
pub proof fn law_snapshot_is_base_and_input(
    base: Seq<JsonView>,
    input: JsonView,
    unique: Seq<Seq<char>>,
)
    ensures
        ({
            let added: nat = match input {
                JsonView::List(items) => items.len(),
                JsonView::Text(_) => 1,
                _ => 0,
            };
            let count = base.len() + added;
            &&& snapshot::ids_needed(input) == added
            &&& match snapshot::resolved(base, input, unique) {
                Ok(all) => {
                    &&& count <= 100
                    &&& all.len() == count
                    &&& all.subrange(0, base.len() as int) == base
                },
                Err(e) => {
                    &&& count > 100
                    &&& is_fault(e, 409, "resolved_snapshot_too_large"@)
                    &&& e.message == "Resolved snapshot has "@ + text::decimal_text(count)
                        + " items, exceeds the cap of "@ + text::decimal_text(100) + "."@
                },
            }
        }),
{
    let all = base + snapshot::input_items(input, unique);
    assert(all.subrange(0, base.len() as int) =~= base);
}

/// An item of the input that is no object, or that has an id, stands in the snapshot as it
/// came. Any other object keeps its members and gets an id: a prefix for its type, an
/// underscore and the unique part that was handed in for it.
pub proof fn law_input_item_is_kept(
    base: Seq<JsonView>,
    items: Seq<JsonView>,
    unique: Seq<Seq<char>>,
    i: int,
)
    requires
        0 <= i < items.len(),
        base.len() + items.len() <= 100,
    ensures
        ({
            &&& snapshot::resolved(base, JsonView::List(items), unique) matches Ok(all)
            &&& all.len() == base.len() + items.len()
            &&& match items[i] {
                JsonView::Object(members) => if exists|k: int|
                    0 <= k < members.len() && (#[trigger] members[k]).0 == "id"@ {
                    all[base.len() + i] == items[i]
                } else {
                    &&& all[base.len() + i] matches JsonView::Object(more)
                    &&& more.len() == members.len() + 1
                    &&& more.drop_last() == members
                    &&& more.last().0 == "id"@
                    &&& more.last().1 matches JsonView::Text(id)
                    &&& exists|prefix: Seq<char>| id == #[trigger] (prefix + "_"@) + unique[i]
                },
                _ => all[base.len() + i] == items[i],
            }
        }),
{
    let all = base + snapshot::input_items(JsonView::List(items), unique);
    assert(all[base.len() + i] == snapshot::with_item_id(items[i], unique[i]));
    if let JsonView::Object(members) = items[i] {
        if exists|k: int| 0 <= k < members.len() && (#[trigger] members[k]).0 == "id"@ {
            let k = choose|k: int| 0 <= k < members.len() && (#[trigger] members[k]).0 == "id"@;
            lemma_found(members, "id"@, k);
        } else {
            json::lemma_find_member(members, "id"@, members.len() as int);
            let prefix = snapshot::item_prefix(members);
            let id = ("id"@, JsonView::Text(snapshot::id_text(prefix, unique[i])));
            assert(members.push(id).drop_last() =~= members);
            assert(snapshot::id_text(prefix, unique[i]) == (prefix + "_"@) + unique[i]);
        }
    }
}

/// A member that is there is found.
proof fn lemma_found(members: Seq<(Seq<char>, JsonView)>, name: Seq<char>, k: int)
    requires
        0 <= k < members.len(),
        members[k].0 == name,
    ensures
        json::find_member(members, name) is Some,
    decreases members.len(),
{
    if members[0].0 != name {
        assert(members.drop_first()[k - 1] == members[k]);
        lemma_found(members.drop_first(), name, k - 1);
    }
}

/// The id of a message starts with `msg`, that of a function call with `fc`, that of the
/// output of one with `fco` and that of reasoning with `r`. An item of another type, or
/// without one, is given the id of a message.
pub proof fn law_id_prefix_follows_type(
    members: Seq<(Seq<char>, JsonView)>,
    unique: Seq<char>,
)
    requires
        json::find_member(members, "id"@) is None,
    ensures
        ({
            let given = snapshot::with_item_id(JsonView::Object(members), unique);
            let of_type = |t: Seq<char>|
                json::find_member(members, "type"@) == Some(JsonView::Text(t));
            let has = |id: Seq<char>|
                given == JsonView::Object(members.push(("id"@, JsonView::Text(id))));
            &&& of_type("message"@) ==> has("msg"@ + "_"@ + unique)
            &&& of_type("function_call"@) ==> has("fc"@ + "_"@ + unique)
            &&& of_type("function_call_output"@) ==> has("fco"@ + "_"@ + unique)
            &&& of_type("reasoning"@) ==> has("r"@ + "_"@ + unique)
            &&& !of_type("function_call"@) && !of_type("function_call_output"@) && !of_type(
                "reasoning"@,
            ) ==> has("msg"@ + "_"@ + unique)
        }),
{
    reveal_strlit("message");
    reveal_strlit("function_call");
    reveal_strlit("function_call_output");
    reveal_strlit("reasoning");
    assert("message"@.len() == 7 && "function_call"@.len() == 13 && "function_call_output"@.len()
        == 20 && "reasoning"@.len() == 9);
}

/// A text becomes a message of the user, completed, with the text as its one part and with
/// the id of a message.
pub proof fn law_text_becomes_user_message(
    base: Seq<JsonView>,
    input: Seq<char>,
    unique: Seq<Seq<char>>,
)
    requires
        base.len() < 100,
    ensures
        ({
            &&& snapshot::resolved(base, JsonView::Text(input), unique) matches Ok(all)
            &&& all.len() == base.len() + 1
            &&& json::member(all.last(), "id"@) == Some(
                JsonView::Text("msg"@ + "_"@ + unique[0]),
            )
            &&& json::member(all.last(), "type"@) == Some(JsonView::Text("message"@))
            &&& json::member(all.last(), "role"@) == Some(JsonView::Text("user"@))
            &&& json::member(all.last(), "status"@) == Some(JsonView::Text("completed"@))
            &&& json::member(all.last(), "content"@) matches Some(JsonView::List(parts))
            &&& parts.len() == 1
            &&& json::member(parts[0], "type"@) == Some(JsonView::Text("input_text"@))
            &&& json::member(parts[0], "text"@) == Some(JsonView::Text(input))
        }),
{
    let all = base + snapshot::input_items(JsonView::Text(input), unique);
    let m = snapshot::user_message(input, unique[0]);
    assert(all.last() == m);
    let members = m->Object_0;
    reveal_strlit("id");
    reveal_strlit("type");
    reveal_strlit("role");
    reveal_strlit("content");
    reveal_strlit("status");
    reveal_strlit("text");
    assert("id"@.len() == 2 && "type"@.len() == 4 && "role"@.len() == 4 && "content"@.len() == 7
        && "status"@.len() == 6 && "text"@.len() == 4);
    assert("type"@[0] != "role"@[0]);
    assert("type"@[1] != "text"@[1]);
    json::lemma_find_member(members, "id"@, 0);
    json::lemma_find_member(members, "type"@, 1);
    json::lemma_find_member(members, "role"@, 2);
    json::lemma_find_member(members, "content"@, 3);
    json::lemma_find_member(members, "status"@, 4);
    let part = members[3].1->List_0[0]->Object_0;
    json::lemma_find_member(part, "type"@, 0);
    json::lemma_find_member(part, "text"@, 1);
}

// ---------------------------------------------------------------------------
// Previous responses
// ---------------------------------------------------------------------------
/// A previous response that is queued or in progress cannot be chained to yet, one that
/// failed or was cancelled cannot be at all, and the answer names it. Every other one can
/// be, with another status or with none.
pub proof fn law_only_finished_responses_are_chained(stored: StoredView, status: Seq<char>)
    ensures
        json::member(stored.raw_response, "status"@) == Some(JsonView::Text(status)) ==> {
            let fault = snapshot::chain_fault(stored);
            &&& status == "queued"@ || status == "in_progress"@ ==> {
                &&& fault matches Some(e)
                &&& is_fault(e, 409, "previous_response_not_ready"@)
                &&& e.message == "Previous response '"@ + stored.id + "' is still "@ + status
                    + "; cannot chain until it reaches a terminal state."@
            }
            &&& status == "failed"@ || status == "cancelled"@ ==> {
                &&& fault matches Some(e)
                &&& is_fault(e, 409, "previous_response_not_usable"@)
                &&& e.message == "Previous response '"@ + stored.id + "' is "@ + status
                    + "; only completed or incomplete responses can be chained."@
            }
            &&& status != "queued"@ && status != "in_progress"@ && status != "failed"@ && status
                != "cancelled"@ ==> fault is None
        },
        !(json::member(stored.raw_response, "status"@) matches Some(JsonView::Text(_)))
            ==> snapshot::chain_fault(stored) is None,
{
    reveal_strlit("queued");
    reveal_strlit("in_progress");
    reveal_strlit("failed");
    reveal_strlit("cancelled");
    reveal_strlit("completed");
    assert("queued"@.len() == 6 && "in_progress"@.len() == 11 && "failed"@.len() == 6
        && "cancelled"@.len() == 9 && "completed"@.len() == 9);
    assert("queued"@[0] != "failed"@[0]);
    assert("completed"@[1] != "cancelled"@[1]);
}

/// A usable response adds the items of its input and then those of its output, each in
/// order, if no more than 100 items come of it.
pub proof fn law_response_adds_input_and_output(
    items: Seq<JsonView>,
    stored: StoredView,
    input: Seq<JsonView>,
    output: Seq<JsonView>,
)
    requires
        stored.input == JsonView::List(input) || (input.len() == 0 && !(stored.input is List)),
        json::member(stored.raw_response, "output"@) == Some(JsonView::List(output)) || (
        output.len() == 0 && !(json::member(stored.raw_response, "output"@) matches Some(
            JsonView::List(_),
        ))),
    ensures
        ({
            let count = items.len() + input.len() + output.len();
            &&& count <= 100 ==> snapshot::with_stored(items, stored) == Ok::<
                Seq<JsonView>,
                HttpErrorView,
            >(items + input + output)
            &&& count > 100 ==> (snapshot::with_stored(items, stored) matches Err(e) && is_fault(
                e,
                409,
                "resolved_snapshot_too_large"@,
            ))
        }),
{
    assert(input.len() == 0 ==> input =~= Seq::empty());
    assert(output.len() == 0 ==> output =~= Seq::empty());
    assert(items + snapshot::contribution(stored) =~= items + input + output);
}

/// A chain is taken response by response, oldest first: what fails first decides, and what
/// follows is added behind what came before.
pub proof fn law_chain_is_chronological(
    items: Seq<JsonView>,
    first: Seq<StoredView>,
    second: Seq<StoredView>,
)
    ensures
        snapshot::with_chain(items, first + second) == match snapshot::with_chain(items, first) {
            Ok(before) => snapshot::with_chain(before, second),
            Err(e) => Err(e),
        },
        first.len() == 1 ==> snapshot::with_chain(items, first) == match snapshot::chain_fault(
            first[0],
        ) {
            Some(e) => Err(e),
            None => snapshot::with_stored(items, first[0]),
        },
    decreases second.len(),
{
    if first.len() == 1 {
        assert(first.drop_last() =~= Seq::empty());
        assert(snapshot::with_chain(items, first.drop_last()) == Ok::<
            Seq<JsonView>,
            HttpErrorView,
        >(items));
    }
    if second.len() == 0 {
        assert(first + second =~= first);
    } else {
        law_chain_is_chronological(items, first, second.drop_last());
        assert((first + second).drop_last() =~= first + second.drop_last());
        assert((first + second).last() == second.last());
    }
}

/// A chain that cannot be loaded is a failure of the server, and an empty one means that
/// there is no such response.
pub proof fn law_missing_chain_is_reported(
    items: Seq<JsonView>,
    prev_id: Seq<char>,
    loaded: Result<Seq<StoredView>, Seq<char>>,
)
    ensures
        ({
            let r = snapshot::with_loaded_chain(items, prev_id, loaded);
            match loaded {
                Err(cause) => {
                    &&& r matches Err(e)
                    &&& is_fault(e, 500, "load_previous_response_chain_failed"@)
                    &&& e.message == "Failed to load previous response chain for "@ + prev_id
                        + ": "@ + cause
                },
                Ok(chain) => {
                    &&& chain.len() == 0 ==> {
                        &&& r matches Err(e)
                        &&& is_fault(e, 404, "previous_response_not_found"@)
                        &&& e.message == "Previous response with id '"@ + prev_id
                            + "' not found."@
                    }
                    &&& chain.len() > 0 ==> r == snapshot::with_chain(items, chain)
                },
            }
        }),
{
}

// ---------------------------------------------------------------------------
// Conversations
// ---------------------------------------------------------------------------
/// A conversation is used exactly where it was found. One that does not exist is not found,
/// and a lookup that fails is a failure of the server.
pub proof fn law_conversation_must_exist(conv_id: Seq<char>, cause: Seq<char>)
    ensures
        snapshot::conversation_fault(conv_id, Ok(true)) is None,
        snapshot::conversation_fault(conv_id, Ok(false)) matches Some(e) && is_fault(
            e,
            404,
            "conversation_not_found"@,
        ) && e.message == "Conversation '"@ + conv_id + "' not found."@,
        snapshot::conversation_fault(conv_id, Err(cause)) matches Some(e) && is_fault(
            e,
            500,
            "load_conversation_failed"@,
        ) && e.message == "Failed to load conversation '"@ + conv_id + "': "@ + cause,
{
}

/// What becomes of a row: reasoning is left out, and so is an item of an unknown type that
/// is no message. Whatever else decoded is replayed as it decoded. What cannot be read or
/// written is a failure of the server, and so is a message with a part of an unknown type.
pub proof fn law_row_is_replayed_or_left_out(row: RowView, conv_id: Seq<char>)
    ensures
        ({
            let r = snapshot::row_value(row, conv_id);
            let t = row.item.item_type;
            &&& t == "reasoning"@ ==> r == Ok::<Option<JsonView>, HttpErrorView>(None)
            &&& t != "reasoning"@ ==> match row.decoded {
                Ok(v) => r == Ok::<Option<JsonView>, HttpErrorView>(Some(v)),
                Err(CodecErrorView::UnknownType(cause)) => {
                    &&& t != "message"@ ==> r == Ok::<Option<JsonView>, HttpErrorView>(None)
                    &&& t == "message"@ ==> (r matches Err(e) && is_fault(
                        e,
                        500,
                        "deserialize_conversation_item_failed"@,
                    ) && e.message == "Failed to deserialize "@ + t + " content for conversation '"@
                        + conv_id + "' item '"@ + (row.item.id + "': "@ + cause))
                },
                Err(CodecErrorView::Deserialize(cause)) => {
                    &&& r matches Err(e)
                    &&& is_fault(e, 500, "deserialize_conversation_item_failed"@)
                    &&& e.message == "Failed to deserialize "@ + t + " content for conversation '"@
                        + conv_id + "' item '"@ + (row.item.id + "': "@ + cause)
                },
                Err(CodecErrorView::Serialize(cause)) => {
                    &&& r matches Err(e)
                    &&& is_fault(e, 500, "serialize_conversation_item_failed"@)
                    &&& e.message == "Failed to serialize conversation item for '"@ + conv_id
                        + "': "@ + cause
                },
            }
        }),
{
    reveal_strlit("reasoning");
    reveal_strlit("message");
    assert("reasoning"@.len() == 9 && "message"@.len() == 7);
}

/// A message is replayed from its id, its role, its status and its content, and one without
/// a role as a message of the user. Reasoning is not replayed, and any other row is
/// replayed from its content alone.
pub proof fn law_row_is_replayed_from_its_parts(item: ItemView)
    ensures
        item.item_type == "message"@ ==> {
            &&& snapshot::request_of(item) matches CodecRequestView::Message {
                id,
                role,
                status,
                content,
            }
            &&& id == item.id
            &&& status == item.status
            &&& content == item.content
            &&& item.role is None ==> role == "user"@
            &&& item.role matches Some(r) ==> role == r
        },
        item.item_type == "reasoning"@ ==> snapshot::request_of(item) is Skip,
        item.item_type != "message"@ && item.item_type != "reasoning"@ ==> snapshot::request_of(
            item,
        ) == CodecRequestView::Item(item.content),
{
    reveal_strlit("reasoning");
    reveal_strlit("message");
    assert("reasoning"@.len() == 9 && "message"@.len() == 7);
}

// ---------------------------------------------------------------------------
// The flow
// ---------------------------------------------------------------------------
/// How a request starts: it is refused without a repository. Else a previous response is
/// loaded, up to one more than fits, whether or not there is a conversation; without one
/// the conversation is looked up; without either the input is all there is.
pub proof fn law_request_starts_with_its_history(has_repository: bool, request: CreateRequest)
    ensures
        ({
            let (state, action) = create::create_start(has_repository, request);
            &&& !has_repository ==> {
                &&& state is Finished
                &&& action matches ActionView::Fail(e)
                &&& is_fault(e, 400, "background_not_supported"@)
                &&& e.message
                    == "Background mode is not supported on this history_backend. Use memory, postgres, or oracle."@
            }
            &&& has_repository ==> match (request.previous_response_id, request.conversation) {
                (Some(prev), _) => {
                    &&& state == (StateView::LoadingChain { prev_id: prev@ })
                    &&& action == (ActionView::LoadChain { prev_id: prev@, limit: 101 })
                },
                (None, Some(conv)) => {
                    &&& state == (StateView::LoadingConversation { conv_id: conv@ })
                    &&& action == (ActionView::LoadConversation { conv_id: conv@ })
                },
                (None, None) => match snapshot::resolved(
                    Seq::empty(),
                    request.input@,
                    snapshot::texts(request.unique@),
                ) {
                    Ok(items) => state == (StateView::Resolved { items }) && action is Prepare,
                    Err(e) => state is Finished && action == ActionView::Fail(e),
                },
            }
        }),
{
}

/// How a request goes on from its history: a loaded chain is resolved with the input, a
/// conversation that exists is read in pages of 64 from its start, and each further page
/// starts behind the last row of the one before. Whatever fails ends the request with that
/// failure.
pub proof fn law_request_goes_on_from_its_history(
    request: CreateRequest,
    prev_id: Seq<char>,
    loaded: Result<Seq<StoredView>, Seq<char>>,
    conv_id: Seq<char>,
    found: Result<bool, Seq<char>>,
    pager: PagerView,
    rows: Seq<RowView>,
)
    ensures
        ({
            let unique = snapshot::texts(request.unique@);
            let (state, action) = create::create_next(
                StateView::LoadingChain { prev_id },
                EventView::ChainLoaded(loaded),
                request,
            );
            match snapshot::with_loaded_chain(Seq::empty(), prev_id, loaded) {
                Err(e) => state is Finished && action == ActionView::Fail(e),
                Ok(base) => match snapshot::resolved(base, request.input@, unique) {
                    Ok(items) => state == (StateView::Resolved { items }) && action is Prepare,
                    Err(e) => state is Finished && action == ActionView::Fail(e),
                },
            }
        }),
        ({
            let (state, action) = create::create_next(
                StateView::LoadingConversation { conv_id },
                EventView::ConversationLoaded(found),
                request,
            );
            &&& found == Ok::<bool, Seq<char>>(true) ==> {
                &&& state == StateView::LoadingPage(
                    PagerView { conv_id, converted: Seq::empty(), after: None },
                )
                &&& action == (ActionView::LoadPage { conv_id, limit: 64, after: None })
            }
            &&& found != Ok::<bool, Seq<char>>(true) ==> state is Finished && action is Fail
        }),
        ({
            let (state, action) = create::create_next(
                StateView::LoadingPage(pager),
                EventView::PageLoaded(Ok(rows)),
                request,
            );
            match snapshot::with_rows(pager.converted, rows, pager.conv_id) {
                Err(e) => state is Finished && action == ActionView::Fail(e),
                Ok(converted) => {
                    &&& rows.len() >= 64 ==> {
                        let after = Some(rows[rows.len() - 1].item.id);
                        &&& action == (ActionView::LoadPage {
                            conv_id: pager.conv_id,
                            limit: 64,
                            after,
                        })
                        &&& state == StateView::LoadingPage(
                            PagerView { conv_id: pager.conv_id, converted, after },
                        )
                    }
                    &&& rows.len() < 64 ==> match snapshot::resolved(
                        converted,
                        request.input@,
                        snapshot::texts(request.unique@),
                    ) {
                        Ok(items) => state == (StateView::Resolved { items }) && action is Prepare,
                        Err(e) => state is Finished && action == ActionView::Fail(e),
                    }
                },
            }
        }),
        ({
            let (state, action) = create::create_next(
                StateView::LoadingPage(pager),
                EventView::PageLoaded(Err(conv_id)),
                request,
            );
            &&& state is Finished
            &&& action matches ActionView::Fail(e)
            &&& is_fault(e, 500, "load_conversation_items_failed"@)
            &&& e.message == "Failed to load conversation items for '"@ + pager.conv_id + "': "@
                + conv_id
        }),
{
}

/// What a request is answered once its job was handed to the queue: the queued response if
/// it was taken, else why it was not. Either way the request is over.
pub proof fn law_enqueueing_is_answered(
    response: JsonView,
    outcome: OutcomeView,
    request: CreateRequest,
)
    ensures
        ({
            let (state, action) = create::create_next(
                StateView::Enqueueing { response },
                EventView::Enqueued(outcome),
                request,
            );
            &&& state is Finished
            &&& match outcome {
                OutcomeView::Queued => action == ActionView::Reply(response),
                OutcomeView::QueueFull { current, limit } => {
                    &&& action matches ActionView::Fail(e)
                    &&& is_fault(e, 429, "queue_full"@)
                    &&& e.message == "Background queue is at capacity ("@ + text::decimal_text(
                        current as nat,
                    ) + "/"@ + text::decimal_text(limit as nat) + ")."@
                },
                OutcomeView::InvalidTransition(cause) => {
                    &&& action matches ActionView::Fail(e)
                    &&& is_fault(e, 409, "invalid_transition"@)
                    &&& e.message == cause
                },
                OutcomeView::Failed(cause) => {
                    &&& action matches ActionView::Fail(e)
                    &&& is_fault(e, 500, "background_enqueue_failed"@)
                    &&& e.message == cause
                },
            }
        }),
{
}

/// The response that is answered and stored while it is queued says what it is, which model
/// was asked for and when, that it has no output yet, and what it refers to, if anything.
pub proof fn law_queued_response_says_what_it_is(
    response_id: Seq<char>,
    model_id: Seq<char>,
    created_at: i64,
    conversation: Option<Seq<char>>,
    previous: Option<Seq<char>>,
)
    ensures
        ({
            let r = create::queued_response(
                response_id,
                model_id,
                created_at,
                conversation,
                previous,
            );
            &&& json::member(r, "id"@) == Some(JsonView::Text(response_id))
            &&& json::member(r, "object"@) == Some(JsonView::Text("response"@))
            &&& json::member(r, "created_at"@) == Some(
                JsonView::Number(text::signed_text(created_at as int)),
            )
            &&& json::member(r, "status"@) == Some(JsonView::Text("queued"@))
            &&& json::member(r, "background"@) == Some(JsonView::Bool(true))
            &&& json::member(r, "model"@) == Some(JsonView::Text(model_id))
            &&& json::member(r, "output"@) == Some(JsonView::List(Seq::empty()))
            &&& match conversation {
                Some(c) => json::member(r, "conversation"@) == Some(JsonView::Text(c)),
                None => json::member(r, "conversation"@) is None,
            }
            &&& match previous {
                Some(p) => json::member(r, "previous_response_id"@) == Some(JsonView::Text(p)),
                None => json::member(r, "previous_response_id"@) is None,
            }
        }),
{
    let r = create::queued_response(response_id, model_id, created_at, conversation, previous);
    let members = r->Object_0;
    reveal_strlit("id");
    reveal_strlit("object");
    reveal_strlit("created_at");
    reveal_strlit("status");
    reveal_strlit("background");
    reveal_strlit("model");
    reveal_strlit("output");
    reveal_strlit("conversation");
    reveal_strlit("previous_response_id");
    assert("id"@.len() == 2 && "object"@.len() == 6 && "created_at"@.len() == 10
        && "status"@.len() == 6 && "background"@.len() == 10 && "model"@.len() == 5
        && "output"@.len() == 6 && "conversation"@.len() == 12 && "previous_response_id"@.len()
        == 20);
    assert("object"@[0] != "status"@[0] && "object"@[1] != "output"@[1] && "status"@[0]
        != "output"@[0]);
    assert("created_at"@[0] != "background"@[0]);
    json::lemma_find_member(members, "id"@, 0);
    json::lemma_find_member(members, "object"@, 1);
    json::lemma_find_member(members, "created_at"@, 2);
    json::lemma_find_member(members, "status"@, 3);
    json::lemma_find_member(members, "background"@, 4);
    json::lemma_find_member(members, "model"@, 5);
    json::lemma_find_member(members, "output"@, 6);
    if conversation is Some {
        json::lemma_find_member(members, "conversation"@, 7);
        json::lemma_find_member(members, "previous_response_id"@, 8);
    } else {
        json::lemma_find_member(members, "conversation"@, members.len() as int);
        json::lemma_find_member(members, "previous_response_id"@, 7);
    }
}

/// The stored response of a job that no executor was available for says which job and model
/// it was, that it failed without output, and why.
pub proof fn law_unavailable_response_says_what_it_is(response_id: Seq<char>, model: Seq<char>)
    ensures
        ({
            let r = worker::failed_response(response_id, model);
            &&& json::member(r, "id"@) == Some(JsonView::Text(response_id))
            &&& json::member(r, "object"@) == Some(JsonView::Text("response"@))
            &&& json::member(r, "status"@) == Some(JsonView::Text("failed"@))
            &&& json::member(r, "model"@) == Some(JsonView::Text(model))
            &&& json::member(r, "output"@) == Some(JsonView::List(Seq::empty()))
            &&& json::member(r, "error"@) matches Some(e)
            &&& json::member(e, "code"@) == Some(
                JsonView::Text("background_execution_unavailable"@),
            )
            &&& json::member(e, "message"@) == Some(
                JsonView::Text("background worker not yet implemented"@),
            )
        }),
{
    let members = worker::failed_response(response_id, model)->Object_0;
    reveal_strlit("id");
    reveal_strlit("object");
    reveal_strlit("status");
    reveal_strlit("model");
    reveal_strlit("output");
    reveal_strlit("error");
    reveal_strlit("code");
    reveal_strlit("message");
    assert("id"@.len() == 2 && "object"@.len() == 6 && "status"@.len() == 6 && "model"@.len() == 5
        && "output"@.len() == 6 && "error"@.len() == 5 && "code"@.len() == 4 && "message"@.len()
        == 7);
    assert("object"@[0] != "status"@[0] && "object"@[1] != "output"@[1] && "status"@[0]
        != "output"@[0]);
    assert("model"@[0] != "error"@[0]);
    json::lemma_find_member(members, "id"@, 0);
    json::lemma_find_member(members, "object"@, 1);
    json::lemma_find_member(members, "status"@, 2);
    json::lemma_find_member(members, "model"@, 3);
    json::lemma_find_member(members, "output"@, 4);
    json::lemma_find_member(members, "error"@, 5);
    json::lemma_find_member(members[5].1->Object_0, "code"@, 0);
    json::lemma_find_member(members[5].1->Object_0, "message"@, 1);
}

/// The id of a response is `resp_` and the text of its bits; the lease identity of a driver
/// is `bg-` and the text of its bits. Different bits give different ids.
pub proof fn law_ids_are_marked(bits: u128, other: u128)
    ensures
        create::response_id_of(bits).len() == 41,
        create::response_id_of(bits).subrange(0, 5) == seq!['r', 'e', 's', 'p', '_'],
        create::response_id_of(bits).subrange(5, 41) == replica::uuid_text(bits),
        driver::worker_id_of(bits).len() == 39,
        driver::worker_id_of(bits).subrange(0, 3) == seq!['b', 'g', '-'],
        driver::worker_id_of(bits).subrange(3, 39) == replica::uuid_text(bits),
        bits != other ==> create::response_id_of(bits) != create::response_id_of(other)
            && driver::worker_id_of(bits) != driver::worker_id_of(other),
{
    reveal_strlit("resp_");
    reveal_strlit("bg-");
    replica::law_uuid_text_shape(bits);
    replica::law_uuid_text_shape(other);
    replica::law_replica_id_text_round_trip(bits);
    replica::law_replica_id_text_round_trip(other);
    assert(create::response_id_of(bits).subrange(0, 5) =~= seq!['r', 'e', 's', 'p', '_']);
    assert(create::response_id_of(bits).subrange(5, 41) =~= replica::uuid_text(bits));
    assert(create::response_id_of(other).subrange(5, 41) =~= replica::uuid_text(other));
    assert(driver::worker_id_of(bits).subrange(0, 3) =~= seq!['b', 'g', '-']);
    assert(driver::worker_id_of(bits).subrange(3, 39) =~= replica::uuid_text(bits));
    assert(driver::worker_id_of(other).subrange(3, 39) =~= replica::uuid_text(other));
}

/// The message of a panic is its text, however it is held; a panic without a text gets a
/// fixed one.
pub proof fn law_panic_message_is_its_text(s: Seq<char>, other: Option<Seq<char>>)
    ensures
        supervisor::message_of(Some(s), other) == s,
        supervisor::message_of(None, Some(s)) == s,
        supervisor::message_of(None, None) == "(non-string panic)"@,
{
}

} // verus!
