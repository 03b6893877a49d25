use smg_core::background::create::{
    create_step, new_response_id, response_id_text, start_create, CreateAction, CreateEvent,
    CreateRequest, CreateState, EnqueueOutcome, EnqueueRequest,
};
use smg_core::background::http::{
    HttpError, BAD_REQUEST, CONFLICT, INTERNAL_SERVER_ERROR, NOT_FOUND, TOO_MANY_REQUESTS,
};
use smg_core::background::json::JsonValue;
use smg_core::background::snapshot::{
    append_stored_response_items, check_prev_response_usable, codec_request,
    conversation_item_to_snapshot_value, ensure_item_id, input_ids_needed, item_id_prefix,
    message_role, resolve_snapshot, snapshot_plan, CodecRequest, ConversationItem, ConversationRow,
    ItemCodecError, SnapshotPlan, StoredResponse, MAX_SNAPSHOT_ITEMS, PAGE_SIZE,
};

fn text(t: &str) -> JsonValue {
    JsonValue::Text(t.to_string())
}

fn object(members: Vec<(&str, JsonValue)>) -> JsonValue {
    JsonValue::Object(members.into_iter().map(|(k, v)| (k.to_string(), v)).collect())
}

fn text_at<'a>(v: &'a JsonValue, name: &str) -> &'a str {
    v.get(name).and_then(|m| m.as_str()).unwrap_or("")
}

fn bg_req() -> CreateRequest {
    CreateRequest {
        model_id: "gpt-5.1".to_string(),
        input: text("hello"),
        unique: vec!["u0".to_string()],
        previous_response_id: None,
        conversation: None,
        stream: None,
        priority: 0,
        safety_identifier: None,
        user: None,
    }
}

fn fault(action: CreateAction) -> HttpError {
    match action {
        CreateAction::Fail(e) => e,
        other => panic!("expected an error, got {other:?}"),
    }
}

fn prepare(state: CreateState, request: &CreateRequest, depth: u32) -> (CreateState, CreateAction) {
    let event = CreateEvent::Prepared {
        response_id: "resp_1".to_string(),
        now_unix: 1_700_000_000,
        request_json: Ok(JsonValue::Null),
        max_queue_depth: depth,
    };
    create_step(state, event, request)
}

fn job(action: CreateAction) -> EnqueueRequest {
    match action {
        CreateAction::Enqueue { job, .. } => job,
        other => panic!("expected a job, got {other:?}"),
    }
}

/// Runs a request without history up to the outcome of enqueueing.
fn run(request: &CreateRequest, outcome: EnqueueOutcome) -> CreateAction {
    let (state, _) = start_create(true, request);
    let (state, _) = prepare(state, request, 10);
    create_step(state, CreateEvent::Enqueued(outcome), request).1
}

/// The row as it comes from storage, with the replayed form that its request asks for.
fn row(item: ConversationItem) -> ConversationRow {
    let decoded = match codec_request(&item) {
        CodecRequest::Message { id, role, status, content } => {
            let mut members = vec![
                ("type", text("message")),
                ("id", JsonValue::Text(id)),
                ("role", JsonValue::Text(role)),
                ("content", content),
            ];
            if let Some(s) = status {
                members.push(("status", JsonValue::Text(s)));
            }
            Ok(object(members))
        }
        CodecRequest::Item(content) => match content.get("type") {
            Some(t) if t.as_str() == Some("no_such_type") => {
                Err(ItemCodecError::UnknownType("unknown variant `no_such_type`".to_string()))
            }
            Some(_) => Ok(content),
            None => Err(ItemCodecError::Deserialize("missing field `type`".to_string())),
        },
        CodecRequest::Skip => Err(ItemCodecError::Deserialize("unused".to_string())),
    };
    ConversationRow { item, decoded }
}

fn message_item(i: usize) -> ConversationItem {
    ConversationItem {
        id: format!("msg_{i}"),
        item_type: "message".to_string(),
        role: Some("user".to_string()),
        status: Some("completed".to_string()),
        content: JsonValue::List(vec![object(vec![
            ("type", text("input_text")),
            ("text", JsonValue::Text(format!("turn {i}"))),
        ])]),
    }
}

fn message_row(i: usize) -> ConversationRow {
    row(message_item(i))
}

fn item_of_type(item_type: &str, content: JsonValue) -> ConversationItem {
    ConversationItem {
        id: "item_1".to_string(),
        item_type: item_type.to_string(),
        role: None,
        status: None,
        content,
    }
}

fn reasoning_row(i: usize) -> ConversationRow {
    let mut item = item_of_type("reasoning", object(vec![("summary", JsonValue::List(Vec::new()))]));
    item.id = format!("r_{i}");
    row(item)
}

/// Runs a request on a conversation with the given rows, page by page.
fn run_conversation(conv_id: &str, rows: Vec<ConversationRow>) -> (CreateState, CreateAction) {
    let mut request = bg_req();
    request.conversation = Some(conv_id.to_string());
    let (state, action) = start_create(true, &request);
    assert!(matches!(action, CreateAction::LoadConversation { .. }));
    let (mut state, mut action) =
        create_step(state, CreateEvent::ConversationLoaded(Ok(true)), &request);
    let mut rest = rows;
    loop {
        match action {
            CreateAction::LoadPage { limit, ref after, .. } => {
                assert_eq!(limit, PAGE_SIZE);
                assert_eq!(after.is_none(), matches!(&state, CreateState::LoadingPage(p) if p.converted.is_empty() && p.after.is_none()));
                let n = limit.min(rest.len());
                let page: Vec<ConversationRow> = rest.drain(..n).collect();
                let (next, step) = create_step(state, CreateEvent::PageLoaded(Ok(page)), &request);
                state = next;
                action = step;
            }
            done => return (state, done),
        }
    }
}

#[test]
fn returns_bad_request_when_repository_missing() {
    let e = fault(start_create(false, &bg_req()).1);
    assert_eq!(e.status, BAD_REQUEST);
    assert_eq!(e.code, "background_not_supported");
    assert_eq!(
        e.message,
        "Background mode is not supported on this history_backend. Use memory, postgres, or oracle."
    );
}

#[test]
fn happy_path_returns_queued_response() {
    match run(&bg_req(), EnqueueOutcome::Queued) {
        CreateAction::Reply(body) => {
            assert_eq!(text_at(&body, "status"), "queued");
            assert!(matches!(body.get("background"), Some(JsonValue::Bool(true))));
            assert_eq!(text_at(&body, "model"), "gpt-5.1");
            assert!(text_at(&body, "id").starts_with("resp_"));
            assert!(matches!(
                body.get("created_at"),
                Some(JsonValue::Number(n)) if n == "1700000000"
            ));
            assert!(body.get("conversation").is_none());
        }
        other => panic!("expected a reply, got {other:?}"),
    }
}

#[test]
fn returns_too_many_requests_when_queue_at_cap() {
    let e = fault(run(&bg_req(), EnqueueOutcome::QueueFull { current: 1, limit: 1 }));
    assert_eq!(e.status, TOO_MANY_REQUESTS);
    assert_eq!(e.code, "queue_full");
    assert_eq!(e.message, "Background queue is at capacity (1/1).");
}

#[test]
fn other_enqueue_failures_are_mapped() {
    let e = fault(run(&bg_req(), EnqueueOutcome::InvalidTransition("no".to_string())));
    assert_eq!((e.status, e.code, e.message.as_str()), (CONFLICT, "invalid_transition", "no"));
    let e = fault(run(&bg_req(), EnqueueOutcome::Failed("down".to_string())));
    assert_eq!(
        (e.status, e.code, e.message.as_str()),
        (INTERNAL_SERVER_ERROR, "background_enqueue_failed", "down")
    );
}

#[test]
fn unserializable_request_fails() {
    let request = bg_req();
    let (state, _) = start_create(true, &request);
    let event = CreateEvent::Prepared {
        response_id: "resp_1".to_string(),
        now_unix: 0,
        request_json: Err("bad".to_string()),
        max_queue_depth: 1,
    };
    let e = fault(create_step(state, event, &request).1);
    assert_eq!(e.status, INTERNAL_SERVER_ERROR);
    assert_eq!(e.code, "background_enqueue_failed");
    assert_eq!(e.message, "Failed to serialize background request: bad");
}

#[test]
fn returns_not_found_when_previous_response_missing() {
    let mut request = bg_req();
    request.previous_response_id = Some("resp_missing".to_string());
    // A previous response takes precedence over a conversation.
    request.conversation = Some("conv".to_string());
    let (state, action) = start_create(true, &request);
    assert!(matches!(
        action,
        CreateAction::LoadChain { ref prev_id, limit: 101 } if prev_id == "resp_missing"
    ));
    let e = fault(create_step(state, CreateEvent::ChainLoaded(Ok(Vec::new())), &request).1);
    assert_eq!(e.status, NOT_FOUND);
    assert_eq!(e.code, "previous_response_not_found");
    assert_eq!(e.message, "Previous response with id 'resp_missing' not found.");
}

fn stored(id: &str, status: Option<&str>, inputs: usize, outputs: usize) -> StoredResponse {
    let mut members = vec![(
        "output",
        JsonValue::List((0..outputs).map(|i| JsonValue::Number(i.to_string())).collect()),
    )];
    if let Some(s) = status {
        members.push(("status", text(s)));
    }
    StoredResponse {
        id: id.to_string(),
        input: JsonValue::List((0..inputs).map(|_| JsonValue::Null).collect()),
        raw_response: object(members),
    }
}

fn chain_fault(chain: Result<Vec<StoredResponse>, String>) -> HttpError {
    let mut request = bg_req();
    request.previous_response_id = Some("resp_prev".to_string());
    let (state, _) = start_create(true, &request);
    fault(create_step(state, CreateEvent::ChainLoaded(chain), &request).1)
}

#[test]
fn returns_conflict_when_previous_response_still_queued() {
    let e = chain_fault(Ok(vec![stored("resp_first", Some("queued"), 1, 0)]));
    assert_eq!(e.status, CONFLICT);
    assert_eq!(e.code, "previous_response_not_ready");
    assert_eq!(
        e.message,
        "Previous response 'resp_first' is still queued; cannot chain until it reaches a terminal state."
    );
}

#[test]
fn returns_conflict_when_previous_response_cancelled() {
    let e = chain_fault(Ok(vec![stored("resp_cancelled", Some("cancelled"), 1, 0)]));
    assert_eq!(e.status, CONFLICT);
    assert_eq!(e.code, "previous_response_not_usable");
    assert_eq!(
        e.message,
        "Previous response 'resp_cancelled' is cancelled; only completed or incomplete responses can be chained."
    );
}

#[test]
fn unloadable_chain_is_a_server_error() {
    let e = chain_fault(Err("io".to_string()));
    assert_eq!(e.status, INTERNAL_SERVER_ERROR);
    assert_eq!(e.code, "load_previous_response_chain_failed");
    assert_eq!(e.message, "Failed to load previous response chain for resp_prev: io");
}

#[test]
fn chain_over_the_cap_is_refused() {
    let e = chain_fault(Ok(vec![
        stored("a", None, 60, 0),
        stored("b", Some("completed"), 40, 1),
    ]));
    assert_eq!(e.status, CONFLICT);
    assert_eq!(e.code, "resolved_snapshot_too_large");
    assert_eq!(e.message, "Resolved snapshot has 101 items, exceeds the cap of 100.");
}

#[test]
fn chain_comes_before_the_input() {
    let mut request = bg_req();
    request.previous_response_id = Some("b".to_string());
    let (state, _) = start_create(true, &request);
    let chain = vec![stored("a", None, 1, 2), stored("b", Some("incomplete"), 0, 1)];
    let (state, action) = create_step(state, CreateEvent::ChainLoaded(Ok(chain)), &request);
    assert!(matches!(action, CreateAction::Prepare));
    let job = job(prepare(state, &request, 10).1);
    assert_eq!(job.previous_response_id.as_deref(), Some("b"));
    assert_eq!(text_at(&job.raw_response, "previous_response_id"), "b");
    match job.input {
        JsonValue::List(items) => {
            assert_eq!(items.len(), 5);
            assert!(matches!(items[0], JsonValue::Null));
            assert!(matches!(&items[1], JsonValue::Number(n) if n == "0"));
            assert_eq!(text_at(&items[4], "role"), "user");
        }
        other => panic!("snapshot is a list, got {other:?}"),
    }
}

#[test]
fn conversation_snapshot_uses_response_input_output_shape() {
    let (state, action) = run_conversation("conv_snapshot", vec![message_row(0)]);
    assert!(matches!(action, CreateAction::Prepare));
    let mut request = bg_req();
    request.conversation = Some("conv_snapshot".to_string());
    let job = job(prepare(state, &request, 10).1);
    let JsonValue::List(input) = job.input else {
        panic!("snapshot is a list");
    };
    let first = &input[0];
    assert_eq!(text_at(first, "type"), "message");
    assert_eq!(text_at(first, "role"), "user");
    match first.get("content") {
        Some(JsonValue::List(parts)) => assert_eq!(text_at(&parts[0], "type"), "input_text"),
        other => panic!("content parts should be preserved, got {other:?}"),
    }
    assert!(first.get("item_type").is_none());
    assert_eq!(job.conversation_id.as_deref(), Some("conv_snapshot"));
}

#[test]
fn conversation_too_large_returns_conflict() {
    let rows = (0..MAX_SNAPSHOT_ITEMS + 1).map(message_row).collect();
    let e = fault(run_conversation("conv_overflow", rows).1);
    assert_eq!(e.status, CONFLICT);
    assert_eq!(e.code, "conversation_too_large");
    assert_eq!(
        e.message,
        "Conversation 'conv_overflow' resolves to more than 100 replayable items; background snapshots cannot exceed this cap."
    );
}

#[test]
fn conversation_with_reasoning_rows_below_cap_is_accepted() {
    let mut rows: Vec<ConversationRow> = (0..MAX_SNAPSHOT_ITEMS - 1).map(message_row).collect();
    for i in 0..2 {
        rows.push(reasoning_row(i));
    }
    let (_, action) = run_conversation("conv_mixed", rows);
    assert!(matches!(action, CreateAction::Prepare));
}

#[test]
fn pages_end_where_storage_does() {
    // An exactly full page asks for one more, which is empty.
    let rows = (0..PAGE_SIZE).map(message_row).collect();
    let (state, action) = run_conversation("conv_full", rows);
    assert!(matches!(action, CreateAction::Prepare));
    match state {
        CreateState::Resolved { items } => assert_eq!(items.len(), PAGE_SIZE + 1),
        other => panic!("expected a snapshot, got {other:?}"),
    }
}

#[test]
fn conversation_faults() {
    let mut request = bg_req();
    request.conversation = Some("conv".to_string());
    let start = || start_create(true, &request).0;
    let e = fault(create_step(start(), CreateEvent::ConversationLoaded(Ok(false)), &request).1);
    assert_eq!((e.status, e.code), (NOT_FOUND, "conversation_not_found"));
    assert_eq!(e.message, "Conversation 'conv' not found.");
    let failed = CreateEvent::ConversationLoaded(Err("io".to_string()));
    let e = fault(create_step(start(), failed, &request).1);
    assert_eq!((e.status, e.code), (INTERNAL_SERVER_ERROR, "load_conversation_failed"));
    assert_eq!(e.message, "Failed to load conversation 'conv': io");
    let (state, _) = create_step(start(), CreateEvent::ConversationLoaded(Ok(true)), &request);
    let failed = CreateEvent::PageLoaded(Err("io".to_string()));
    let e = fault(create_step(state, failed, &request).1);
    assert_eq!((e.status, e.code), (INTERNAL_SERVER_ERROR, "load_conversation_items_failed"));
    assert_eq!(e.message, "Failed to load conversation items for 'conv': io");
}

#[test]
fn undecodable_rows_are_server_errors() {
    let mut row = message_row(3);
    row.decoded = Err(ItemCodecError::Deserialize("bad".to_string()));
    let e = conversation_item_to_snapshot_value(row, "conv").unwrap_err();
    assert_eq!((e.status, e.code), (INTERNAL_SERVER_ERROR, "deserialize_conversation_item_failed"));
    assert_eq!(
        e.message,
        "Failed to deserialize message content for conversation 'conv' item 'msg_3': bad"
    );
    let mut row = message_row(3);
    row.decoded = Err(ItemCodecError::Serialize("bad".to_string()));
    let e = conversation_item_to_snapshot_value(row, "conv").unwrap_err();
    assert_eq!((e.status, e.code), (INTERNAL_SERVER_ERROR, "serialize_conversation_item_failed"));
    assert_eq!(e.message, "Failed to serialize conversation item for 'conv': bad");
    assert!(matches!(conversation_item_to_snapshot_value(reasoning_row(0), "conv"), Ok(None)));
}

#[test]
fn rows_of_unknown_types_are_left_out() {
    let unknown =
        || row(item_of_type("no_such_type", object(vec![("type", text("no_such_type"))])));
    assert!(matches!(codec_request(&unknown().item), CodecRequest::Item(_)));
    assert!(matches!(conversation_item_to_snapshot_value(unknown(), "conv"), Ok(None)));
    // What is unknown is the codec's to say: a failure of another kind is an error.
    let mut failed = unknown();
    failed.decoded = Err(ItemCodecError::Deserialize("bad".to_string()));
    let e = conversation_item_to_snapshot_value(failed, "conv").unwrap_err();
    assert_eq!(
        e.message,
        "Failed to deserialize no_such_type content for conversation 'conv' item 'item_1': bad"
    );
    // A message is of a known type, whatever its parts are.
    let mut message = message_row(3);
    message.decoded = Err(ItemCodecError::UnknownType("bad part".to_string()));
    let e = conversation_item_to_snapshot_value(message, "conv").unwrap_err();
    assert_eq!(
        e.message,
        "Failed to deserialize message content for conversation 'conv' item 'msg_3': bad part"
    );
    // The page goes on with its other rows.
    let rows = vec![message_row(0), unknown(), message_row(1), unknown()];
    let (state, action) = run_conversation("conv_unknown", rows);
    assert!(matches!(action, CreateAction::Prepare));
    match state {
        CreateState::Resolved { items } => {
            assert_eq!(items.len(), 3);
            assert_eq!(text_at(&items[0], "id"), "msg_0");
            assert_eq!(text_at(&items[1], "id"), "msg_1");
        }
        other => panic!("expected a snapshot, got {other:?}"),
    }
}

#[test]
fn tool_rows_are_replayed_as_they_are_stored() {
    for item_type in [
        "function_call",
        "function_call_output",
        "mcp_call",
        "mcp_list_tools",
        "mcp_approval_request",
        "web_search_call",
        "file_search_call",
        "code_interpreter_call",
        "computer_call",
        "shell_call",
        "local_shell_call",
        "apply_patch_call",
        "image_generation_call",
        "custom_tool_call",
        "tool_search_call",
        "some_later_type",
    ] {
        let content = object(vec![("type", text(item_type)), ("call_id", text("c1"))]);
        let r = row(item_of_type(item_type, content));
        match conversation_item_to_snapshot_value(r, "conv") {
            Ok(Some(v)) => {
                assert_eq!(text_at(&v, "type"), item_type);
                assert_eq!(text_at(&v, "call_id"), "c1");
            }
            other => panic!("{item_type} should be replayed, got {other:?}"),
        }
    }
    let e = conversation_item_to_snapshot_value(row(item_of_type("mcp_call", text("x"))), "conv")
        .unwrap_err();
    assert_eq!(
        e.message,
        "Failed to deserialize mcp_call content for conversation 'conv' item 'item_1': missing field `type`"
    );
}

#[test]
fn request_for_a_row_carries_what_is_stored() {
    let mut item = message_item(4);
    item.role = None;
    match codec_request(&item) {
        CodecRequest::Message { id, role, status, content } => {
            assert_eq!(id, "msg_4");
            assert_eq!(role, "user");
            assert_eq!(status.as_deref(), Some("completed"));
            match content {
                JsonValue::List(parts) => assert_eq!(text_at(&parts[0], "text"), "turn 4"),
                other => panic!("expected the parts, got {other:?}"),
            }
        }
        other => panic!("expected a message, got {other:?}"),
    }
    item.role = Some("assistant".to_string());
    item.status = None;
    match codec_request(&item) {
        CodecRequest::Message { role, status, .. } => {
            assert_eq!(role, "assistant");
            assert!(status.is_none());
        }
        other => panic!("expected a message, got {other:?}"),
    }
    let stored = item_of_type("function_call", text("stored"));
    assert!(matches!(codec_request(&stored), CodecRequest::Item(v) if v.as_str() == Some("stored")));
    let stored = item_of_type("reasoning", text("stored"));
    assert!(matches!(codec_request(&stored), CodecRequest::Skip));
}

#[test]
fn priority_is_propagated_to_enqueue() {
    let mut request = bg_req();
    request.priority = 7;
    request.user = Some("someone".to_string());
    request.stream = Some(true);
    let (state, _) = start_create(true, &request);
    match prepare(state, &request, 5).1 {
        CreateAction::Enqueue { job, max_depth } => {
            assert_eq!(job.priority, 7);
            assert_eq!(max_depth, 5);
            assert!(job.stream);
            assert_eq!(job.model, "gpt-5.1");
            assert_eq!(job.safety_identifier.as_deref(), Some("someone"));
        }
        other => panic!("expected a job, got {other:?}"),
    }
    request.safety_identifier = Some("safe".to_string());
    let (state, _) = start_create(true, &request);
    let job = job(prepare(state, &request, 5).1);
    assert_eq!(job.safety_identifier.as_deref(), Some("safe"));
}

#[test]
fn input_over_the_cap_is_refused() {
    let input = JsonValue::List((0..101).map(|_| JsonValue::Null).collect());
    let unique: Vec<String> = (0..input_ids_needed(&input)).map(|i| i.to_string()).collect();
    let e = resolve_snapshot(Vec::new(), &input, &unique).unwrap_err();
    assert_eq!((e.status, e.code), (CONFLICT, "resolved_snapshot_too_large"));
    assert_eq!(e.message, "Resolved snapshot has 101 items, exceeds the cap of 100.");
}

#[test]
fn items_get_ids_by_type() {
    assert_eq!(item_id_prefix("message"), Some("msg"));
    assert_eq!(item_id_prefix("function_call"), Some("fc"));
    assert_eq!(item_id_prefix("function_call_output"), Some("fco"));
    assert_eq!(item_id_prefix("reasoning"), Some("r"));
    assert_eq!(item_id_prefix("web_search_call"), None);
    let call = ensure_item_id(object(vec![("type", text("function_call"))]), "x");
    assert_eq!(text_at(&call, "id"), "fc_x");
    let other = ensure_item_id(object(vec![("type", text("web_search_call"))]), "x");
    assert_eq!(text_at(&other, "id"), "msg_x");
    let again = ensure_item_id(call, "y");
    assert_eq!(text_at(&again, "id"), "fc_x");
    let kept = ensure_item_id(object(vec![("id", text("mine"))]), "x");
    assert_eq!(text_at(&kept, "id"), "mine");
    assert!(matches!(ensure_item_id(JsonValue::Null, "x"), JsonValue::Null));
}

#[test]
fn text_input_becomes_a_user_message() {
    let items = resolve_snapshot(Vec::new(), &text("hello"), &vec!["x".to_string()]).unwrap();
    assert_eq!(items.len(), 1);
    assert_eq!(text_at(&items[0], "id"), "msg_x");
    assert_eq!(text_at(&items[0], "type"), "message");
    assert_eq!(text_at(&items[0], "role"), "user");
    assert_eq!(text_at(&items[0], "status"), "completed");
    match items[0].get("content") {
        Some(JsonValue::List(parts)) => {
            assert_eq!(text_at(&parts[0], "type"), "input_text");
            assert_eq!(text_at(&parts[0], "text"), "hello");
        }
        other => panic!("expected parts, got {other:?}"),
    }
    assert!(resolve_snapshot(Vec::new(), &JsonValue::Null, &Vec::new()).unwrap().is_empty());
}

#[test]
fn rows_and_roles() {
    assert_eq!(snapshot_plan("message"), SnapshotPlan::Message);
    assert_eq!(snapshot_plan("reasoning"), SnapshotPlan::Skip);
    assert_eq!(snapshot_plan("function_call"), SnapshotPlan::Replay);
    assert_eq!(snapshot_plan("no_such_type"), SnapshotPlan::Replay);
    assert_eq!(snapshot_plan(""), SnapshotPlan::Replay);
    assert_eq!(message_role(None), "user");
    assert_eq!(message_role(Some("system".to_string())), "system");
}

#[test]
fn usable_statuses() {
    assert!(check_prev_response_usable(&stored("a", None, 0, 0)).is_ok());
    assert!(check_prev_response_usable(&stored("a", Some("completed"), 0, 0)).is_ok());
    assert!(check_prev_response_usable(&stored("a", Some("in_progress"), 0, 0)).is_err());
    assert!(check_prev_response_usable(&stored("a", Some("failed"), 0, 0)).is_err());
    let items = append_stored_response_items(&stored("a", None, 60, 40), Vec::new()).unwrap();
    assert_eq!(items.len(), 100);
}

#[test]
fn response_ids() {
    assert_eq!(response_id_text(1), "resp_00000000-0000-0000-0000-000000000001");
    let id = new_response_id();
    assert!(id.starts_with("resp_"));
    assert_eq!(id.len(), 41);
    assert_eq!(id.as_bytes()[19], b'7');
    assert_ne!(id, new_response_id());
}
