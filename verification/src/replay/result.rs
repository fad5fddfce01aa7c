//! Results: how each request went.

use crate::contracts::{clone_optional, optional_text};
use crate::replay::request::PreparedMetadata;
use crate::replay::stream::StreamMetrics;
use crate::scenario::model::CompactionExpectedEffect;
use crate::text::{char_list, decimal, decimal_text, gather, same_text};
use crate::text_map::TextMap;
use vstd::prelude::*;

verus! {

/// How one request went. Times are nanoseconds.
#[derive(Debug)]
pub struct RequestResult {
    pub ordinal: usize,
    pub source_request_id: String,
    pub source_x_request_id: Option<String>,
    pub replay_request_id: String,
    pub session_id: Option<String>,
    pub parent_session_id: Option<String>,
    pub scheduled_offset_ns: u64,
    pub scheduler_wake_offset_ns: u64,
    pub scheduler_wake_lag_ns: u64,
    pub dispatch_offset_ns: u64,
    pub dispatch_lag_ns: u64,
    pub local_admission_lag_ns: u64,
    pub expected_input_tokens: usize,
    pub expected_output_tokens: Option<u32>,
    pub observed_output_tokens: Option<u64>,
    pub output_length_match: Option<bool>,
    pub compaction_operation_id: Option<String>,
    pub compaction_phase: Option<String>,
    pub compaction_attempt: Option<usize>,
    pub compaction_expected_effect: Option<CompactionExpectedEffect>,
    pub planned_abort_match: Option<bool>,
    pub status_code: Option<u16>,
    pub ttft_ns: Option<u64>,
    pub total_time_ns: u64,
    pub response_headers: TextMap,
    pub error: Option<String>,
}

/// Points in time around a dispatch, in nanoseconds on one clock.
#[derive(Debug, Clone, Copy, PartialEq, Eq, Structural)]
pub struct DispatchTimes {
    /// When the run began.
    pub base_ns: u64,
    /// When the request was to leave.
    pub scheduled_ns: u64,
    /// When the scheduler took it up.
    pub scheduler_wake_ns: u64,
    /// When it left.
    pub dispatch_ns: u64,
}

/// The time from `earlier` to `later`; zero where `later` comes first.
pub open spec fn since(later: u64, earlier: u64) -> u64 {
    if later > earlier {
        (later - earlier) as u64
    } else {
        0
    }
}

fn span(later: u64, earlier: u64) -> (result: u64)
    ensures
        result == since(later, earlier),
{
    if later > earlier {
        later - earlier
    } else {
        0
    }
}

/// `result` is that of a request that has left and of which nothing is known yet.
pub open spec fn is_shell(
    result: RequestResult,
    times: DispatchTimes,
    scheduled_offset_ns: u64,
    metadata: PreparedMetadata,
) -> bool {
    &&& result.ordinal == metadata.ordinal
    &&& result.source_request_id == metadata.source_request_id
    &&& result.source_x_request_id == metadata.source_x_request_id
    &&& result.replay_request_id == metadata.replay_request_id
    &&& match metadata.agent_context {
        Some(context) => result.session_id == Some(context.session_id) && result.parent_session_id
            == context.parent_session_id,
        None => result.session_id is None && result.parent_session_id is None,
    }
    &&& result.scheduled_offset_ns == scheduled_offset_ns
    &&& result.scheduler_wake_offset_ns == since(times.scheduler_wake_ns, times.base_ns)
    &&& result.scheduler_wake_lag_ns == since(times.scheduler_wake_ns, times.scheduled_ns)
    &&& result.dispatch_offset_ns == since(times.dispatch_ns, times.base_ns)
    &&& result.dispatch_lag_ns == since(times.dispatch_ns, times.scheduled_ns)
    &&& result.local_admission_lag_ns == since(times.dispatch_ns, times.scheduler_wake_ns)
    &&& result.expected_input_tokens == metadata.input_tokens
    &&& result.expected_output_tokens == metadata.expected_output_tokens
    &&& result.observed_output_tokens is None
    &&& result.output_length_match is None
    &&& match metadata.compaction_attempt {
        Some(attempt) => result.compaction_operation_id == Some(attempt.operation_id) && result.compaction_phase
            == Some(attempt.phase) && result.compaction_attempt == Some(attempt.attempt)
            && result.compaction_expected_effect == Some(attempt.expected_effect),
        None => result.compaction_operation_id is None && result.compaction_phase is None
            && result.compaction_attempt is None && result.compaction_expected_effect is None,
    }
    &&& result.planned_abort_match is None
    &&& result.status_code is None
    &&& result.ttft_ns is None
    &&& result.total_time_ns == 0
    &&& result.response_headers@ == Map::<Seq<char>, Seq<char>>::empty()
    &&& result.error is None
}

/// Begins the result of a request that leaves.
pub fn request_result_shell(
    times: DispatchTimes,
    scheduled_offset_ns: u64,
    metadata: &PreparedMetadata,
) -> (result: RequestResult)
    ensures
        is_shell(result, times, scheduled_offset_ns, *metadata),
{
    let (session_id, parent_session_id) = match &metadata.agent_context {
        Some(context) => (Some(context.session_id.clone()), clone_optional(&context.parent_session_id)),
        None => (None, None),
    };
    let (compaction_operation_id, compaction_phase, compaction_attempt, compaction_expected_effect) =
        match &metadata.compaction_attempt {
        Some(attempt) => (
            Some(attempt.operation_id.clone()),
            Some(attempt.phase.clone()),
            Some(attempt.attempt),
            Some(attempt.expected_effect),
        ),
        None => (None, None, None, None),
    };
    RequestResult {
        ordinal: metadata.ordinal,
        source_request_id: metadata.source_request_id.clone(),
        source_x_request_id: clone_optional(&metadata.source_x_request_id),
        replay_request_id: metadata.replay_request_id.clone(),
        session_id,
        parent_session_id,
        scheduled_offset_ns,
        scheduler_wake_offset_ns: span(times.scheduler_wake_ns, times.base_ns),
        scheduler_wake_lag_ns: span(times.scheduler_wake_ns, times.scheduled_ns),
        dispatch_offset_ns: span(times.dispatch_ns, times.base_ns),
        dispatch_lag_ns: span(times.dispatch_ns, times.scheduled_ns),
        local_admission_lag_ns: span(times.dispatch_ns, times.scheduler_wake_ns),
        expected_input_tokens: metadata.input_tokens,
        expected_output_tokens: metadata.expected_output_tokens,
        observed_output_tokens: None,
        output_length_match: None,
        compaction_operation_id,
        compaction_phase,
        compaction_attempt,
        compaction_expected_effect,
        planned_abort_match: None,
        status_code: None,
        ttft_ns: None,
        total_time_ns: 0,
        response_headers: TextMap::new(),
        error: None,
    }
}

// ---------------------------------------------------------------------------------------------
// Responses
// ---------------------------------------------------------------------------------------------

/// A response header that results keep.
pub open spec fn keeps_header(name: Seq<char>) -> bool {
    name == "x-request-id"@ || (name.len() >= 9 && name.take(9) == "x-dynamo-"@)
}

/// The headers that results keep, of the first `n`; a later one of the same name replaces an
/// earlier one, and a value that is not text is left out.
pub open spec fn kept_headers(headers: Seq<(String, Option<String>)>, n: nat) -> Map<Seq<char>, Seq<char>>
    decreases n,
{
    if n == 0 {
        Map::empty()
    } else {
        let before = kept_headers(headers, (n - 1) as nat);
        let (name, value) = headers[n - 1];
        match value {
            Some(text) => if keeps_header(name@) {
                before.insert(name@, text@)
            } else {
                before
            },
            None => before,
        }
    }
}

fn is_kept(name: &str) -> (result: bool)
    ensures
        result == keeps_header(name@),
{
    if same_text(name, "x-request-id") {
        return true;
    }
    let chars = char_list(name);
    proof {
        reveal_strlit("x-dynamo-");
    }
    if chars.len() < 9 {
        return false;
    }
    let start = gather(&chars, 0, 9);
    assert(start@ =~= name@.take(9));
    same_text(start.as_str(), "x-dynamo-")
}

/// Picks the response headers that results keep.
pub fn selected_response_headers(headers: Vec<(String, Option<String>)>) -> (kept: TextMap)
    ensures
        kept@ == kept_headers(headers@, headers@.len()),
{
    let mut kept = TextMap::new();
    let mut i: usize = 0;
    while i < headers.len()
        invariant
            i <= headers@.len(),
            kept@ == kept_headers(headers@, i as nat),
        decreases headers@.len() - i,
    {
        if let Some(value) = &headers[i].1 {
            if is_kept(headers[i].0.as_str()) {
                kept.insert(headers[i].0.clone(), value.clone());
            }
        }
        i += 1;
    }
    kept
}

/// A status code that stands for success.
pub open spec fn successful(status: u16) -> bool {
    200 <= status <= 299
}

/// Tells whether a status code stands for success.
pub fn is_success(status: u16) -> (result: bool)
    ensures
        result == successful(status),
{
    200 <= status && status <= 299
}

/// The result of a request that got no response.
pub fn unanswered(result: RequestResult, elapsed_ns: u64, error: String) -> (after: RequestResult)
    ensures
        after == (RequestResult { total_time_ns: elapsed_ns, error: Some(error), ..result }),
{
    let mut after = result;
    after.total_time_ns = elapsed_ns;
    after.error = Some(error);
    after
}

/// Notes the status and the headers of a response.
pub fn answered(result: RequestResult, status: u16, headers: Vec<(String, Option<String>)>) -> (after: RequestResult)
    ensures
        after == (RequestResult {
            status_code: Some(status),
            response_headers: after.response_headers,
            ..result
        }),
        after.response_headers@ == kept_headers(headers@, headers@.len()),
{
    let mut after = result;
    after.status_code = Some(status);
    after.response_headers = selected_response_headers(headers);
    after
}

/// What a result says of a response that does not stand for success: its status, and the start
/// of its body.
pub open spec fn refusal_text(status: Seq<char>, body: Seq<char>) -> Seq<char> {
    "HTTP "@ + status + ": "@ + (if body.len() <= 512 {
        body
    } else {
        body.take(512)
    })
}

/// The result of a request that was refused.
pub fn refused(result: RequestResult, elapsed_ns: u64, status: &str, body: &str) -> (after: RequestResult)
    ensures
        after == (RequestResult { total_time_ns: elapsed_ns, error: after.error, ..result }),
        optional_text(after.error) == Some(refusal_text(status@, body@)),
{
    let mut text = "HTTP ".to_string();
    text.append(status);
    text.append(": ");
    let chars = char_list(body);
    let end = if chars.len() <= 512 {
        chars.len()
    } else {
        512
    };
    text.append(gather(&chars, 0, end).as_str());
    assert(chars@.subrange(0, end as int) =~= (if body@.len() <= 512 {
        body@
    } else {
        body@.take(512)
    }));
    let mut after = result;
    after.total_time_ns = elapsed_ns;
    after.error = Some(text);
    after
}

/// Whether an output is as long as it was to be; nothing where either is unknown.
pub open spec fn length_match(expected: Option<u32>, observed: Option<u64>) -> Option<bool> {
    match (expected, observed) {
        (Some(wanted), Some(tokens)) => Some(tokens == wanted as u64),
        _ => None,
    }
}

/// The result of a request whose response was read to its end.
pub fn streamed(result: RequestResult, elapsed_ns: u64, metrics: StreamMetrics) -> (after: RequestResult)
    ensures
        after == (RequestResult {
            total_time_ns: elapsed_ns,
            ttft_ns: metrics.ttft_ns,
            observed_output_tokens: metrics.output_tokens,
            output_length_match: length_match(result.expected_output_tokens, metrics.output_tokens),
            ..result
        }),
{
    let mut after = result;
    after.total_time_ns = elapsed_ns;
    after.ttft_ns = metrics.ttft_ns;
    after.observed_output_tokens = metrics.output_tokens;
    after.output_length_match = match (after.expected_output_tokens, metrics.output_tokens) {
        (Some(wanted), Some(tokens)) => Some(tokens == wanted as u64),
        _ => None,
    };
    after
}

/// The result of a request that was given up on as planned.
pub fn aborted(result: RequestResult, elapsed_ns: u64) -> (after: RequestResult)
    ensures
        after == (RequestResult { total_time_ns: elapsed_ns, planned_abort_match: Some(true), ..result }),
{
    let mut after = result;
    after.total_time_ns = elapsed_ns;
    after.planned_abort_match = Some(true);
    after
}

/// What a result says of a request that was to be given up on and was not.
pub open spec fn escape_text(abort_after_ms: u64) -> Seq<char> {
    "planned compaction abort after "@ + decimal(abort_after_ms as nat) + " ms completed before cancellation"@
}

/// The result of a request that completed before it could be given up on.
pub fn completed_before_abort(result: RequestResult, abort_after_ms: u64) -> (after: RequestResult)
    ensures
        after == (RequestResult { planned_abort_match: Some(false), error: after.error, ..result }),
        optional_text(after.error) == Some(escape_text(abort_after_ms)),
{
    let mut text = "planned compaction abort after ".to_string();
    text.append(decimal_text(abort_after_ms).as_str());
    text.append(" ms completed before cancellation");
    let mut after = result;
    after.planned_abort_match = Some(false);
    after.error = Some(text);
    after
}

} // verus!
