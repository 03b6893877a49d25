//! Creation of background responses: resolve the input snapshot, then enqueue.
//!
//! Storage is read and written by the caller. `start_create` and `create_step` say
//! what to do next; the caller does it and hands back what came of it.

use vstd::prelude::*;

use super::http;
use super::http::{
    create_error, HttpError, HttpErrorView, BAD_REQUEST, CONFLICT, INTERNAL_SERVER_ERROR,
    TOO_MANY_REQUESTS,
};
use super::json;
use super::json::{copy_json, push_member, text_value, JsonValue, JsonView};
use super::snapshot;
use super::snapshot::{
    append_prev_chain_items, check_conversation, resolve_snapshot, ConversationPager,
    ConversationRow, PagerStep, PagerStepView, PagerView, RowView, StoredResponse, StoredView,
    MAX_SNAPSHOT_ITEMS, PAGE_SIZE,
};
use crate::crdt_kv::replica;
use crate::crdt_kv::replica::ReplicaId;
use crate::text;
use crate::text::{concat5, decimal, signed_decimal};

verus! {

/// One past the cap: a longer chain cannot fit, so that no more is read of it.
pub const CHAIN_LIMIT: usize = 101;

// ---------------------------------------------------------------------------
// Requests and answers
// ---------------------------------------------------------------------------
/// What matters of a request. `unique` holds a unique part for each id that the
/// input may need.
#[derive(Debug)]
pub struct CreateRequest {
    pub model_id: String,
    pub input: JsonValue,
    pub unique: Vec<String>,
    pub previous_response_id: Option<String>,
    pub conversation: Option<String>,
    pub stream: Option<bool>,
    pub priority: i32,
    pub safety_identifier: Option<String>,
    pub user: Option<String>,
}

impl CreateRequest {
    /// There are enough unique parts.
    pub open spec fn wf(&self) -> bool {
        self.unique@.len() >= snapshot::ids_needed(self.input@)
    }
}

/// A job to enqueue.
#[derive(Debug)]
pub struct EnqueueRequest {
    pub response_id: String,
    pub model: String,
    pub request_json: JsonValue,
    pub input: JsonValue,
    pub raw_response: JsonValue,
    pub stream: bool,
    pub priority: i32,
    pub conversation_id: Option<String>,
    pub safety_identifier: Option<String>,
    pub previous_response_id: Option<String>,
}

/// What a job to enqueue holds.
#[verifier::ext_equal]
pub struct EnqueueView {
    pub response_id: Seq<char>,
    pub model: Seq<char>,
    pub request_json: JsonView,
    pub input: JsonView,
    pub raw_response: JsonView,
    pub stream: bool,
    pub priority: i32,
    pub conversation_id: Option<Seq<char>>,
    pub safety_identifier: Option<Seq<char>>,
    pub previous_response_id: Option<Seq<char>>,
}

impl View for EnqueueRequest {
    type V = EnqueueView;

    open spec fn view(&self) -> EnqueueView {
        EnqueueView {
            response_id: self.response_id@,
            model: self.model@,
            request_json: self.request_json@,
            input: self.input@,
            raw_response: self.raw_response@,
            stream: self.stream,
            priority: self.priority,
            conversation_id: snapshot::opt_text(self.conversation_id),
            safety_identifier: snapshot::opt_text(self.safety_identifier),
            previous_response_id: snapshot::opt_text(self.previous_response_id),
        }
    }
}

/// What came of enqueueing a job.
#[derive(Debug)]
pub enum EnqueueOutcome {
    /// The job is queued.
    Queued,
    /// The queue has no room.
    QueueFull { current: u64, limit: u64 },
    /// The row is in a state that does not allow it.
    InvalidTransition(String),
    /// Anything else.
    Failed(String),
}

/// What an outcome says.
#[verifier::ext_equal]
pub enum OutcomeView {
    Queued,
    QueueFull { current: u64, limit: u64 },
    InvalidTransition(Seq<char>),
    Failed(Seq<char>),
}

impl View for EnqueueOutcome {
    type V = OutcomeView;

    open spec fn view(&self) -> OutcomeView {
        match self {
            EnqueueOutcome::Queued => OutcomeView::Queued,
            EnqueueOutcome::QueueFull { current, limit } => OutcomeView::QueueFull {
                current: *current,
                limit: *limit,
            },
            EnqueueOutcome::InvalidTransition(e) => OutcomeView::InvalidTransition(e@),
            EnqueueOutcome::Failed(e) => OutcomeView::Failed(e@),
        }
    }
}

// ---------------------------------------------------------------------------
// Identifiers
// ---------------------------------------------------------------------------
/// The id of a response with the given bits.
pub open spec fn response_id_of(bits: u128) -> Seq<char> {
    "resp_"@ + replica::uuid_text(bits)
}

/// The id of a response with the given bits.
pub fn response_id_text(bits: u128) -> (id: String)
    ensures
        id@ == response_id_of(bits),
{
    let mut id: String = "resp_".to_owned();
    id.append(ReplicaId { bits }.to_string().as_str());
    id
}

/// Generates the id of a new response from the clock and the random source.
pub fn new_response_id() -> (id: String)
    ensures
        exists|bits: u128| (bits >> 76) & 0xf == 7 && id@ == #[trigger] response_id_of(bits),
{
    let fresh = ReplicaId::new();
    let id: String = response_id_text(fresh.bits);
    assert(id@ == response_id_of(fresh.bits));
    id
}

// ---------------------------------------------------------------------------
// The queued response
// ---------------------------------------------------------------------------
/// The response as it is answered and stored while it is queued.
pub open spec fn queued_response(
    response_id: Seq<char>,
    model_id: Seq<char>,
    created_at: i64,
    conversation: Option<Seq<char>>,
    previous: Option<Seq<char>>,
) -> JsonView {
    let base = seq![
        ("id"@, JsonView::Text(response_id)),
        ("object"@, JsonView::Text("response"@)),
        ("created_at"@, JsonView::Number(text::signed_text(created_at as int))),
        ("status"@, JsonView::Text("queued"@)),
        ("background"@, JsonView::Bool(true)),
        ("model"@, JsonView::Text(model_id)),
        ("output"@, JsonView::List(Seq::empty())),
    ];
    let with_conversation = match conversation {
        Some(c) => base.push(("conversation"@, JsonView::Text(c))),
        None => base,
    };
    JsonView::Object(
        match previous {
            Some(p) => with_conversation.push(("previous_response_id"@, JsonView::Text(p))),
            None => with_conversation,
        },
    )
}

/// Builds the response as it is answered and stored while it is queued.
pub fn initial_queued_response(
    response_id: &str,
    model_id: &str,
    created_at_unix: i64,
    conversation: &Option<String>,
    previous_response_id: &Option<String>,
) -> (response: JsonValue)
    ensures
        response@ == queued_response(
            response_id@,
            model_id@,
            created_at_unix,
            snapshot::opt_text(*conversation),
            snapshot::opt_text(*previous_response_id),
        ),
{
    let mut members: Vec<(String, JsonValue)> = Vec::new();
    push_member(&mut members, "id", text_value(response_id));
    push_member(&mut members, "object", text_value("response"));
    push_member(&mut members, "created_at", JsonValue::Number(signed_decimal(created_at_unix)));
    push_member(&mut members, "status", text_value("queued"));
    push_member(&mut members, "background", JsonValue::Bool(true));
    push_member(&mut members, "model", text_value(model_id));
    push_member(&mut members, "output", JsonValue::List(Vec::new()));
    let ghost base = seq![
        ("id"@, JsonView::Text(response_id@)),
        ("object"@, JsonView::Text("response"@)),
        ("created_at"@, JsonView::Number(text::signed_text(created_at_unix as int))),
        ("status"@, JsonView::Text("queued"@)),
        ("background"@, JsonView::Bool(true)),
        ("model"@, JsonView::Text(model_id@)),
        ("output"@, JsonView::List(Seq::empty())),
    ];
    assert(json::members_view(members@) =~= base);
    if let Some(c) = conversation {
        push_member(&mut members, "conversation", text_value(c.as_str()));
    }
    if let Some(p) = previous_response_id {
        push_member(&mut members, "previous_response_id", text_value(p.as_str()));
    }
    JsonValue::Object(members)
}

// ---------------------------------------------------------------------------
// The flow
// ---------------------------------------------------------------------------
/// Where the creation of a response stands.
#[derive(Debug)]
pub enum CreateState {
    /// The chain of previous responses is being loaded.
    LoadingChain { prev_id: String },
    /// The conversation is being looked up.
    LoadingConversation { conv_id: String },
    /// A page of the conversation is being loaded.
    LoadingPage(ConversationPager),
    /// The snapshot is resolved.
    Resolved { items: Vec<JsonValue> },
    /// The job is being enqueued.
    Enqueueing { response: JsonValue },
    /// The answer is given.
    Finished,
}

/// What a state holds.
#[verifier::ext_equal]
pub enum StateView {
    LoadingChain { prev_id: Seq<char> },
    LoadingConversation { conv_id: Seq<char> },
    LoadingPage(PagerView),
    Resolved { items: Seq<JsonView> },
    Enqueueing { response: JsonView },
    Finished,
}

impl View for CreateState {
    type V = StateView;

    open spec fn view(&self) -> StateView {
        match self {
            CreateState::LoadingChain { prev_id } => StateView::LoadingChain { prev_id: prev_id@ },
            CreateState::LoadingConversation { conv_id } => StateView::LoadingConversation {
                conv_id: conv_id@,
            },
            CreateState::LoadingPage(pager) => StateView::LoadingPage(pager@),
            CreateState::Resolved { items } => StateView::Resolved {
                items: json::list_view(items@),
            },
            CreateState::Enqueueing { response } => StateView::Enqueueing { response: response@ },
            CreateState::Finished => StateView::Finished,
        }
    }
}

/// What the caller has to do.
#[derive(Debug)]
pub enum CreateAction {
    /// Load the chain of responses that ends in `prev_id`, up to `limit` of them.
    LoadChain { prev_id: String, limit: usize },
    /// Look up a conversation.
    LoadConversation { conv_id: String },
    /// Load a page of a conversation, in ascending order.
    LoadPage { conv_id: String, limit: usize, after: Option<String> },
    /// Generate an id, read the clock and serialize the request.
    Prepare,
    /// Enqueue a job, if the queue holds less than `max_depth`.
    Enqueue { job: EnqueueRequest, max_depth: u64 },
    /// Answer with the queued response.
    Reply(JsonValue),
    /// Answer with an error.
    Fail(HttpError),
}

/// What an action says.
#[verifier::ext_equal]
pub enum ActionView {
    LoadChain { prev_id: Seq<char>, limit: usize },
    LoadConversation { conv_id: Seq<char> },
    LoadPage { conv_id: Seq<char>, limit: usize, after: Option<Seq<char>> },
    Prepare,
    Enqueue { job: EnqueueView, max_depth: u64 },
    Reply(JsonView),
    Fail(HttpErrorView),
}

impl View for CreateAction {
    type V = ActionView;

    open spec fn view(&self) -> ActionView {
        match self {
            CreateAction::LoadChain { prev_id, limit } => ActionView::LoadChain {
                prev_id: prev_id@,
                limit: *limit,
            },
            CreateAction::LoadConversation { conv_id } => ActionView::LoadConversation {
                conv_id: conv_id@,
            },
            CreateAction::LoadPage { conv_id, limit, after } => ActionView::LoadPage {
                conv_id: conv_id@,
                limit: *limit,
                after: snapshot::opt_text(*after),
            },
            CreateAction::Prepare => ActionView::Prepare,
            CreateAction::Enqueue { job, max_depth } => ActionView::Enqueue {
                job: job@,
                max_depth: *max_depth,
            },
            CreateAction::Reply(v) => ActionView::Reply(v@),
            CreateAction::Fail(e) => ActionView::Fail(e@),
        }
    }
}

/// What came of an action.
#[derive(Debug)]
pub enum CreateEvent {
    /// The chain, oldest response first.
    ChainLoaded(Result<Vec<StoredResponse>, String>),
    /// Whether the conversation exists.
    ConversationLoaded(Result<bool, String>),
    /// A page of the conversation.
    PageLoaded(Result<Vec<ConversationRow>, String>),
    /// The id of the response, the time, the serialized request and the configured
    /// depth of the queue.
    Prepared {
        response_id: String,
        now_unix: i64,
        request_json: Result<JsonValue, String>,
        max_queue_depth: u32,
    },
    /// What came of enqueueing.
    Enqueued(EnqueueOutcome),
}

/// What an event says.
#[verifier::ext_equal]
pub enum EventView {
    ChainLoaded(Result<Seq<StoredView>, Seq<char>>),
    ConversationLoaded(Result<bool, Seq<char>>),
    PageLoaded(Result<Seq<RowView>, Seq<char>>),
    Prepared {
        response_id: Seq<char>,
        now_unix: i64,
        request_json: Result<JsonView, Seq<char>>,
        max_queue_depth: u32,
    },
    Enqueued(OutcomeView),
}

impl View for CreateEvent {
    type V = EventView;

    open spec fn view(&self) -> EventView {
        match self {
            CreateEvent::ChainLoaded(loaded) => EventView::ChainLoaded(
                match loaded {
                    Ok(chain) => Ok(snapshot::stored_views(chain@)),
                    Err(e) => Err(e@),
                },
            ),
            CreateEvent::ConversationLoaded(found) => EventView::ConversationLoaded(
                snapshot::found_view(*found),
            ),
            CreateEvent::PageLoaded(loaded) => EventView::PageLoaded(snapshot::page_view(*loaded)),
            CreateEvent::Prepared { response_id, now_unix, request_json, max_queue_depth } =>
            EventView::Prepared {
                response_id: response_id@,
                now_unix: *now_unix,
                request_json: match request_json {
                    Ok(v) => Ok(v@),
                    Err(e) => Err(e@),
                },
                max_queue_depth: *max_queue_depth,
            },
            CreateEvent::Enqueued(outcome) => EventView::Enqueued(outcome@),
        }
    }
}

/// The event is one that the state waits for.
pub open spec fn awaits(state: StateView, event: EventView) -> bool {
    match (state, event) {
        (StateView::LoadingChain { .. }, EventView::ChainLoaded(_)) => true,
        (StateView::LoadingConversation { .. }, EventView::ConversationLoaded(_)) => true,
        (StateView::LoadingPage(_), EventView::PageLoaded(_)) => true,
        (StateView::Resolved { .. }, EventView::Prepared { .. }) => true,
        (StateView::Enqueueing { .. }, EventView::Enqueued(_)) => true,
        _ => false,
    }
}

/// The flow ends with an error.
pub open spec fn failed(e: HttpErrorView) -> (StateView, ActionView) {
    (StateView::Finished, ActionView::Fail(e))
}

/// The flow once the items before the input are known.
pub open spec fn with_base(base: Result<Seq<JsonView>, HttpErrorView>, request: CreateRequest) -> (
    StateView,
    ActionView,
) {
    match base {
        Err(e) => failed(e),
        Ok(items) => match snapshot::resolved(
            items,
            request.input@,
            snapshot::texts(request.unique@),
        ) {
            Err(e) => failed(e),
            Ok(all) => (StateView::Resolved { items: all }, ActionView::Prepare),
        },
    }
}

/// The flow when a page is to be loaded.
pub open spec fn load_page(pager: PagerView) -> (StateView, ActionView) {
    (
        StateView::LoadingPage(pager),
        ActionView::LoadPage { conv_id: pager.conv_id, limit: PAGE_SIZE, after: pager.after },
    )
}

/// How the flow starts: without a repository the request cannot be served; a
/// previous response takes precedence over a conversation.
pub open spec fn create_start(has_repository: bool, request: CreateRequest) -> (
    StateView,
    ActionView,
) {
    if !has_repository {
        failed(
            http::fault(
                BAD_REQUEST,
                "background_not_supported"@,
                "Background mode is not supported on this history_backend. Use memory, postgres, or oracle."@,
            ),
        )
    } else {
        match (request.previous_response_id, request.conversation) {
            (Some(prev_id), _) => (
                StateView::LoadingChain { prev_id: prev_id@ },
                ActionView::LoadChain { prev_id: prev_id@, limit: CHAIN_LIMIT },
            ),
            (None, Some(conv_id)) => (
                StateView::LoadingConversation { conv_id: conv_id@ },
                ActionView::LoadConversation { conv_id: conv_id@ },
            ),
            (None, None) => with_base(Ok(Seq::empty()), request),
        }
    }
}

/// The job that is enqueued. The user stands in for a missing safety identifier, so
/// that queries by identifier find queued responses too.
pub open spec fn job_of(
    request: CreateRequest,
    items: Seq<JsonView>,
    response_id: Seq<char>,
    now_unix: i64,
    request_json: JsonView,
) -> EnqueueView {
    EnqueueView {
        response_id,
        model: request.model_id@,
        request_json,
        input: JsonView::List(items),
        raw_response: queued_response(
            response_id,
            request.model_id@,
            now_unix,
            snapshot::opt_text(request.conversation),
            snapshot::opt_text(request.previous_response_id),
        ),
        stream: request.stream == Some(true),
        priority: request.priority,
        conversation_id: snapshot::opt_text(request.conversation),
        safety_identifier: match request.safety_identifier {
            Some(s) => Some(s@),
            None => snapshot::opt_text(request.user),
        },
        previous_response_id: snapshot::opt_text(request.previous_response_id),
    }
}

/// The answer to what came of enqueueing.
pub open spec fn reply_to(outcome: OutcomeView, response: JsonView) -> ActionView {
    match outcome {
        OutcomeView::Queued => ActionView::Reply(response),
        OutcomeView::QueueFull { current, limit } => ActionView::Fail(
            http::fault(
                TOO_MANY_REQUESTS,
                "queue_full"@,
                "Background queue is at capacity ("@ + text::decimal_text(current as nat) + "/"@
                    + text::decimal_text(limit as nat) + ")."@,
            ),
        ),
        OutcomeView::InvalidTransition(e) => ActionView::Fail(
            http::fault(CONFLICT, "invalid_transition"@, e),
        ),
        OutcomeView::Failed(e) => ActionView::Fail(
            http::fault(INTERNAL_SERVER_ERROR, "background_enqueue_failed"@, e),
        ),
    }
}

/// How the flow goes on.
pub open spec fn create_next(state: StateView, event: EventView, request: CreateRequest) -> (
    StateView,
    ActionView,
) {
    match (state, event) {
        (StateView::LoadingChain { prev_id }, EventView::ChainLoaded(loaded)) => with_base(
            snapshot::with_loaded_chain(Seq::empty(), prev_id, loaded),
            request,
        ),
        (StateView::LoadingConversation { conv_id }, EventView::ConversationLoaded(found)) =>
        match snapshot::conversation_fault(conv_id, found) {
            Some(e) => failed(e),
            None => load_page(PagerView { conv_id, converted: Seq::empty(), after: None }),
        },
        (StateView::LoadingPage(pager), EventView::PageLoaded(loaded)) => match snapshot::after_page(
            pager,
            loaded,
        ) {
            Err(e) => failed(e),
            Ok(PagerStepView::More(next)) => load_page(next),
            Ok(PagerStepView::Done(items)) => with_base(Ok(items), request),
        },
        (
            StateView::Resolved { items },
            EventView::Prepared { response_id, now_unix, request_json, max_queue_depth },
        ) => match request_json {
            Err(e) => failed(
                http::fault(
                    INTERNAL_SERVER_ERROR,
                    "background_enqueue_failed"@,
                    "Failed to serialize background request: "@ + e,
                ),
            ),
            Ok(v) => {
                let job = job_of(request, items, response_id, now_unix, v);
                (
                    StateView::Enqueueing { response: job.raw_response },
                    ActionView::Enqueue { job, max_depth: max_queue_depth as u64 },
                )
            },
        },
        (StateView::Enqueueing { response }, EventView::Enqueued(outcome)) => (
            StateView::Finished,
            reply_to(outcome, response),
        ),
        _ => (state, ActionView::Prepare),
    }
}

fn fail(e: HttpError) -> (r: (CreateState, CreateAction))
    ensures
        (r.0@, r.1@) == failed(e@),
{
    (CreateState::Finished, CreateAction::Fail(e))
}

/// Resolves the snapshot once the items before the input are known.
fn resolve_base(base: Result<Vec<JsonValue>, HttpError>, request: &CreateRequest) -> (r: (
    CreateState,
    CreateAction,
))
    requires
        request.wf(),
    ensures
        (r.0@, r.1@) == with_base(
            match base {
                Ok(items) => Ok(json::list_view(items@)),
                Err(e) => Err(e@),
            },
            *request,
        ),
{
    match base {
        Err(e) => fail(e),
        Ok(items) => match resolve_snapshot(items, &request.input, &request.unique) {
            Err(e) => fail(e),
            Ok(all) => (CreateState::Resolved { items: all }, CreateAction::Prepare),
        },
    }
}

fn next_page(pager: ConversationPager) -> (r: (CreateState, CreateAction))
    ensures
        (r.0@, r.1@) == load_page(pager@),
{
    let conv_id: String = pager.conv_id.clone();
    let after: Option<String> = match &pager.after {
        Some(id) => Some(id.clone()),
        None => None,
    };
    (
        CreateState::LoadingPage(pager),
        CreateAction::LoadPage { conv_id, limit: PAGE_SIZE, after },
    )
}

/// A copy of an optional text.
fn copy_opt(t: &Option<String>) -> (copy: Option<String>)
    ensures
        snapshot::opt_text(copy) == snapshot::opt_text(*t),
{
    match t {
        Some(s) => Some(s.clone()),
        None => None,
    }
}

/// Starts the creation of a response.
pub fn start_create(has_repository: bool, request: &CreateRequest) -> (r: (
    CreateState,
    CreateAction,
))
    requires
        request.wf(),
    ensures
        (r.0@, r.1@) == create_start(has_repository, *request),
{
    if !has_repository {
        return fail(
            create_error(
                BAD_REQUEST,
                "background_not_supported",
                "Background mode is not supported on this history_backend. Use memory, postgres, or oracle.".to_owned(),
            ),
        );
    }
    if let Some(prev_id) = &request.previous_response_id {
        return (
            CreateState::LoadingChain { prev_id: prev_id.clone() },
            CreateAction::LoadChain { prev_id: prev_id.clone(), limit: CHAIN_LIMIT },
        );
    }
    if let Some(conv_id) = &request.conversation {
        return (
            CreateState::LoadingConversation { conv_id: conv_id.clone() },
            CreateAction::LoadConversation { conv_id: conv_id.clone() },
        );
    }
    let none: Vec<JsonValue> = Vec::new();
    resolve_base(Ok(none), request)
}

/// The job for a resolved snapshot, and the response to answer with.
fn prepare_job(
    items: Vec<JsonValue>,
    response_id: String,
    now_unix: i64,
    request_json: JsonValue,
    request: &CreateRequest,
) -> (r: (EnqueueRequest, JsonValue))
    ensures
        r.0@ == job_of(
            *request,
            json::list_view(items@),
            response_id@,
            now_unix,
            request_json@,
        ),
        r.1@ == r.0@.raw_response,
{
    let response: JsonValue = initial_queued_response(
        response_id.as_str(),
        request.model_id.as_str(),
        now_unix,
        &request.conversation,
        &request.previous_response_id,
    );
    let stream: bool = match request.stream {
        Some(s) => s,
        None => false,
    };
    let safety_identifier: Option<String> = match &request.safety_identifier {
        Some(s) => Some(s.clone()),
        None => copy_opt(&request.user),
    };
    let job = EnqueueRequest {
        response_id,
        model: request.model_id.clone(),
        request_json,
        input: JsonValue::List(items),
        raw_response: copy_json(&response),
        stream,
        priority: request.priority,
        conversation_id: copy_opt(&request.conversation),
        safety_identifier,
        previous_response_id: copy_opt(&request.previous_response_id),
    };
    (job, response)
}

/// The answer to what came of enqueueing.
fn reply(outcome: EnqueueOutcome, response: JsonValue) -> (action: CreateAction)
    ensures
        action@ == reply_to(outcome@, response@),
{
    match outcome {
        EnqueueOutcome::Queued => CreateAction::Reply(response),
        EnqueueOutcome::QueueFull { current, limit } => CreateAction::Fail(
            create_error(
                TOO_MANY_REQUESTS,
                "queue_full",
                concat5(
                    "Background queue is at capacity (",
                    decimal(current as u128).as_str(),
                    "/",
                    decimal(limit as u128).as_str(),
                    ").",
                ),
            ),
        ),
        EnqueueOutcome::InvalidTransition(e) => CreateAction::Fail(
            create_error(CONFLICT, "invalid_transition", e),
        ),
        EnqueueOutcome::Failed(e) => CreateAction::Fail(
            create_error(INTERNAL_SERVER_ERROR, "background_enqueue_failed", e),
        ),
    }
}

/// Goes on with the creation of a response.
pub fn create_step(state: CreateState, event: CreateEvent, request: &CreateRequest) -> (r: (
    CreateState,
    CreateAction,
))
    requires
        request.wf(),
        awaits(state@, event@),
    ensures
        (r.0@, r.1@) == create_next(state@, event@, *request),
{
    match (state, event) {
        (CreateState::LoadingChain { prev_id }, CreateEvent::ChainLoaded(loaded)) => {
            let none: Vec<JsonValue> = Vec::new();
            let base = append_prev_chain_items(prev_id.as_str(), loaded, none);
            resolve_base(base, request)
        },
        (CreateState::LoadingConversation { conv_id }, CreateEvent::ConversationLoaded(found)) => {
            match check_conversation(conv_id.as_str(), found) {
                Err(e) => fail(e),
                Ok(_) => next_page(ConversationPager::new(conv_id.as_str())),
            }
        },
        (CreateState::LoadingPage(pager), CreateEvent::PageLoaded(loaded)) => {
            match pager.page_loaded(loaded) {
                Err(e) => fail(e),
                Ok(PagerStep::More(next)) => next_page(next),
                Ok(PagerStep::Done(items)) => resolve_base(Ok(items), request),
            }
        },
        (
            CreateState::Resolved { items },
            CreateEvent::Prepared { response_id, now_unix, request_json, max_queue_depth },
        ) => match request_json {
            Err(e) => {
                let mut message: String = "Failed to serialize background request: ".to_owned();
                message.append(e.as_str());
                fail(create_error(INTERNAL_SERVER_ERROR, "background_enqueue_failed", message))
            },
            Ok(v) => {
                let (job, response) = prepare_job(items, response_id, now_unix, v, request);
                (
                    CreateState::Enqueueing { response },
                    CreateAction::Enqueue { job, max_depth: max_queue_depth as u64 },
                )
            },
        },
        (CreateState::Enqueueing { response }, CreateEvent::Enqueued(outcome)) => (
            CreateState::Finished,
            reply(outcome, response),
        ),
        (state, _) => (state, CreateAction::Prepare),
    }
}

// ---------------------------------------------------------------------------
// Laws
// ---------------------------------------------------------------------------
/// A job is enqueued only with a snapshot within the cap, and carries the response
/// that is answered.
pub proof fn law_enqueued_job_is_valid(
    state: StateView,
    event: EventView,
    request: CreateRequest,
)
    requires
        awaits(state, event),
        state matches StateView::Resolved { items } ==> items.len() <= MAX_SNAPSHOT_ITEMS,
    ensures
        create_next(state, event, request).1 matches ActionView::Enqueue { job, .. } ==> {
            &&& json::items_of(Some(job.input)).len() <= MAX_SNAPSHOT_ITEMS
            &&& create_next(state, event, request).0 == StateView::Enqueueing {
                response: job.raw_response,
            }
            &&& json::member(job.raw_response, "status"@) == Some(JsonView::Text("queued"@))
        },
        create_next(state, event, request).0 matches StateView::Resolved { items } ==> items.len()
            <= MAX_SNAPSHOT_ITEMS,
{
    if let (
        StateView::Resolved { items },
        EventView::Prepared { response_id, now_unix, request_json, max_queue_depth },
    ) = (state, event) {
        if let Ok(v) = request_json {
            let job = job_of(request, items, response_id, now_unix, v);
            law_queued_response_is_queued(
                response_id,
                request.model_id@,
                now_unix,
                snapshot::opt_text(request.conversation),
                snapshot::opt_text(request.previous_response_id),
            );
        }
    }
}

/// What is enqueued is what was asked for: the job carries the serialized request as it
/// came, the resolved items as its input, and the model, the priority, the stream flag
/// and the references of the request. The user stands in for a safety identifier only
/// where there is none. A request that asks for no stream gets none. The depth of the
/// queue is the configured one, and a request that cannot be serialized is not enqueued.
pub proof fn law_job_carries_the_request(
    items: Seq<JsonView>,
    response_id: Seq<char>,
    now_unix: i64,
    request_json: Result<JsonView, Seq<char>>,
    max_queue_depth: u32,
    request: CreateRequest,
)
    ensures
        ({
            let event = EventView::Prepared {
                response_id,
                now_unix,
                request_json,
                max_queue_depth,
            };
            let (next, action) = create_next(StateView::Resolved { items }, event, request);
            match request_json {
                Ok(v) => {
                    &&& action matches ActionView::Enqueue { job, max_depth }
                    &&& max_depth == max_queue_depth
                    &&& job.request_json == v
                    &&& job.input == JsonView::List(items)
                    &&& job.response_id == response_id
                    &&& job.model == request.model_id@
                    &&& job.priority == request.priority
                    &&& job.stream <==> request.stream == Some(true)
                    &&& request.conversation is None ==> job.conversation_id is None
                    &&& request.conversation matches Some(c) ==> job.conversation_id == Some(c@)
                    &&& request.previous_response_id is None ==> job.previous_response_id is None
                    &&& request.previous_response_id matches Some(p)
                        ==> job.previous_response_id == Some(p@)
                    &&& request.safety_identifier matches Some(s) ==> job.safety_identifier
                        == Some(s@)
                    &&& request.safety_identifier is None && request.user is None
                        ==> job.safety_identifier is None
                    &&& request.safety_identifier is None ==> (request.user matches Some(u)
                        ==> job.safety_identifier == Some(u@))
                    &&& next matches StateView::Enqueueing { response }
                    &&& response == job.raw_response
                },
                Err(e) => {
                    &&& next is Finished
                    &&& action matches ActionView::Fail(fault)
                    &&& fault.status == 500
                    &&& fault.code == "background_enqueue_failed"@
                    &&& fault.message == "Failed to serialize background request: "@ + e
                },
            }
        }),
{
}

/// A request that needs no history starts with a snapshot within the cap, or is refused.
pub proof fn law_start_respects_cap(has_repository: bool, request: CreateRequest)
    ensures
        create_start(has_repository, request).0 matches StateView::Resolved { items }
            ==> items.len() <= MAX_SNAPSHOT_ITEMS,
        !has_repository ==> create_start(has_repository, request).1 is Fail,
{
}

/// The answer to an accepted request is a queued background response of the model
/// that was asked for.
pub proof fn law_queued_response_is_queued(
    response_id: Seq<char>,
    model_id: Seq<char>,
    created_at: i64,
    conversation: Option<Seq<char>>,
    previous: Option<Seq<char>>,
)
    ensures
        ({
            let r = queued_response(response_id, model_id, created_at, conversation, previous);
            &&& json::member(r, "id"@) == Some(JsonView::Text(response_id))
            &&& json::member(r, "status"@) == Some(JsonView::Text("queued"@))
            &&& json::member(r, "background"@) == Some(JsonView::Bool(true))
            &&& json::member(r, "model"@) == Some(JsonView::Text(model_id))
        }),
{
    let r = queued_response(response_id, model_id, created_at, conversation, previous);
    let members = r->Object_0;
    reveal_strlit("id");
    reveal_strlit("object");
    reveal_strlit("created_at");
    reveal_strlit("status");
    reveal_strlit("background");
    reveal_strlit("model");
    assert("id"@.len() == 2 && "object"@.len() == 6 && "created_at"@.len() == 10
        && "status"@.len() == 6 && "background"@.len() == 10 && "model"@.len() == 5);
    assert("object"@[0] != "status"@[0]);
    assert("created_at"@[0] != "background"@[0]);
    json::lemma_find_member(members, "id"@, 0);
    json::lemma_find_member(members, "status"@, 3);
    json::lemma_find_member(members, "background"@, 4);
    json::lemma_find_member(members, "model"@, 5);
}

/// Every answer to a failure is an error of the client or of the server.
pub proof fn law_refusals_are_errors(outcome: OutcomeView, response: JsonView)
    ensures
        match reply_to(outcome, response) {
            ActionView::Reply(r) => outcome is Queued && r == response,
            ActionView::Fail(e) => !(outcome is Queued) && (e.status == TOO_MANY_REQUESTS
                || e.status == CONFLICT || e.status == INTERNAL_SERVER_ERROR),
            _ => false,
        },
{
}

} // verus!
