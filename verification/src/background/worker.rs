//! What becomes of a claimed job for which no executor is available.

use vstd::prelude::*;

use super::json;
use super::json::{push_member, text_value, JsonValue, JsonView};

verus! {

/// The error code of a job that no executor was available for.
pub const BACKGROUND_EXECUTION_UNAVAILABLE: &'static str = "background_execution_unavailable";

/// What matters of a claimed job.
#[derive(Debug)]
pub struct LeasedJob {
    pub response_id: String,
    pub worker_id: String,
    pub model: String,
}

/// The state that a job ends in.
#[derive(Debug, Clone, Copy, PartialEq, Eq, Structural)]
pub enum FinalizeStatus {
    Completed,
    Failed,
}

/// A request to end a job.
#[derive(Debug)]
pub struct FinalizeRequest {
    pub response_id: String,
    pub worker_id: String,
    pub status: FinalizeStatus,
    pub raw_response: JsonValue,
}

/// The stored response of a job that no executor was available for.
pub open spec fn failed_response(response_id: Seq<char>, model: Seq<char>) -> JsonView {
    JsonView::Object(
        seq![
            ("id"@, JsonView::Text(response_id)),
            ("object"@, JsonView::Text("response"@)),
            ("status"@, JsonView::Text("failed"@)),
            ("model"@, JsonView::Text(model)),
            ("output"@, JsonView::List(Seq::empty())),
            (
                "error"@,
                JsonView::Object(
                    seq![
                        ("code"@, JsonView::Text(BACKGROUND_EXECUTION_UNAVAILABLE@)),
                        ("message"@, JsonView::Text("background worker not yet implemented"@)),
                    ],
                ),
            ),
        ],
    )
}

/// Builds the stored response of a job that no executor was available for.
pub fn failed_raw_response(job: &LeasedJob) -> (response: JsonValue)
    ensures
        response@ == failed_response(job.response_id@, job.model@),
{
    let mut error: Vec<(String, JsonValue)> = Vec::new();
    push_member(&mut error, "code", text_value(BACKGROUND_EXECUTION_UNAVAILABLE));
    push_member(&mut error, "message", text_value("background worker not yet implemented"));
    assert(json::members_view(error@) =~= seq![
        ("code"@, JsonView::Text(BACKGROUND_EXECUTION_UNAVAILABLE@)),
        ("message"@, JsonView::Text("background worker not yet implemented"@)),
    ]);
    let mut members: Vec<(String, JsonValue)> = Vec::new();
    push_member(&mut members, "id", text_value(job.response_id.as_str()));
    push_member(&mut members, "object", text_value("response"));
    push_member(&mut members, "status", text_value("failed"));
    push_member(&mut members, "model", text_value(job.model.as_str()));
    push_member(&mut members, "output", JsonValue::List(Vec::new()));
    let error_value = JsonValue::Object(error);
    push_member(&mut members, "error", error_value);
    assert(json::members_view(members@) =~= failed_response(
        job.response_id@,
        job.model@,
    )->Object_0);
    JsonValue::Object(members)
}

/// The request ends the job as failed, under the lease that it was claimed with.
pub open spec fn ends_as_failed(request: FinalizeRequest, job: LeasedJob) -> bool {
    &&& request.response_id@ == job.response_id@
    &&& request.worker_id@ == job.worker_id@
    &&& request.status == FinalizeStatus::Failed
    &&& request.raw_response@ == failed_response(job.response_id@, job.model@)
}

/// Ends a job that no executor is available for, under the lease it was claimed with.
pub fn finalize_unavailable(job: &LeasedJob) -> (request: FinalizeRequest)
    ensures
        request.response_id@ == job.response_id@,
        request.worker_id@ == job.worker_id@,
        request.status == FinalizeStatus::Failed,
        request.raw_response@ == failed_response(job.response_id@, job.model@),
        ends_as_failed(request, *job),
{
    FinalizeRequest {
        response_id: job.response_id.clone(),
        worker_id: job.worker_id.clone(),
        status: FinalizeStatus::Failed,
        raw_response: failed_raw_response(job),
    }
}

// ---------------------------------------------------------------------------
// Laws
// ---------------------------------------------------------------------------
/// A job that no executor is available for is not ended as completed, nor for another job or
/// under the lease of another worker, and what is stored of it says so.
pub proof fn law_unavailable_job_is_not_completed(request: FinalizeRequest, job: LeasedJob)
    requires
        ends_as_failed(request, job),
    ensures
        request.status != FinalizeStatus::Completed,
        request.response_id@ == job.response_id@,
        request.worker_id@ == job.worker_id@,
        json::member(request.raw_response@, "status"@) == Some(JsonView::Text("failed"@)),
{
    law_unavailable_shows_as_failed(job.response_id@, job.model@);
}

/// A job that no executor was available for shows as failed, with the reason.
pub proof fn law_unavailable_shows_as_failed(response_id: Seq<char>, model: Seq<char>)
    ensures
        ({
            let r = failed_response(response_id, model);
            &&& json::member(r, "status"@) == Some(JsonView::Text("failed"@))
            &&& json::member(r, "error"@) matches Some(e) && json::member(e, "code"@) == Some(
                JsonView::Text(BACKGROUND_EXECUTION_UNAVAILABLE@),
            )
        }),
{
    let members = failed_response(response_id, model)->Object_0;
    reveal_strlit("id");
    reveal_strlit("object");
    reveal_strlit("status");
    reveal_strlit("model");
    reveal_strlit("output");
    reveal_strlit("error");
    reveal_strlit("code");
    assert("id"@.len() == 2 && "object"@.len() == 6 && "status"@.len() == 6 && "model"@.len() == 5
        && "output"@.len() == 6 && "error"@.len() == 5);
    assert("object"@[0] != "status"@[0]);
    assert("model"@[0] != "error"@[0]);
    json::lemma_find_member(members, "status"@, 2);
    json::lemma_find_member(members, "error"@, 5);
    json::lemma_find_member(members[5].1->Object_0, "code"@, 0);
}

} // verus!
