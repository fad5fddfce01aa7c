//! What responses, results and totals say of a run.

use crate::contracts::TraceManifest;
use crate::fidelity::how_many;
use crate::json::JsonView;
use crate::replay::artifacts::{
    blockers_of, counted, is_summary, microseconds, RunAccumulator, RunCounts, RunSummary, SummaryIdentity,
};
use crate::replay::histogram::{reported, reported_at, reported_max, reported_min};
use crate::replay::options::ReplayOptions;
use crate::replay::request::PreparedMetadata;
use crate::replay::result::{
    is_shell, kept_headers, length_match, refusal_text, successful, DispatchTimes, RequestResult,
};
use crate::replay::stream::{
    all_payloads, carries_output, choice_shows, data_prefix, line_feed, next_payload, observed, payload_of,
    space_byte, trimmed_end, trimmed_start, unended, StreamMetrics,
};
use crate::scenario::model::CompactionExpectedEffect;
use crate::token_shape::dictionary::TokenDictionaryManifest;
use vstd::prelude::*;

verus! {

// ---------------------------------------------------------------------------------------------
// Streams
// ---------------------------------------------------------------------------------------------

/// A JSON value that holds something: a text that is not empty, a list or an object that is not, a
/// number or a truth value.
pub open spec fn holds_something(value: JsonView) -> bool {
    ||| value is Number
    ||| value is Bool
    ||| value is Text && value->Text_0.len() > 0
    ||| value is Array && value->Array_0.len() > 0
    ||| value is Object && value->Object_0.len() > 0
}

/// Choice `i` of a chunk.
pub open spec fn is_choice(chunk: JsonView, i: int, choice: JsonView) -> bool {
    match chunk.field("choices"@) {
        Some(JsonView::Array(choices)) => 0 <= i < choices.len() && choices[i] == choice,
        _ => false,
    }
}

/// A field of an object holds something.
pub open spec fn fills(value: JsonView, name: Seq<char>) -> bool {
    value.field(name) is Some && holds_something(value.field(name)->0)
}

/// The first chunk with a choice that carries content sets the time to the first token.
pub proof fn law_content_is_output(metrics: StreamMetrics, chunk: JsonView, i: int, choice: JsonView, at_ns: u64)
    requires
        is_choice(chunk, i, choice),
        choice.field("delta"@) is Some,
        fills(choice.field("delta"@)->0, "content"@),
    ensures
        metrics.ttft_ns is None ==> observed(metrics, chunk, at_ns).ttft_ns == Some(at_ns),
{
    let choices = chunk.field("choices"@)->0->Array_0;
    assert(choice_shows(choices[i]));
}

/// The first chunk with a choice that carries reasoning sets the time to the first token.
pub proof fn law_reasoning_is_output(metrics: StreamMetrics, chunk: JsonView, i: int, choice: JsonView, at_ns: u64)
    requires
        is_choice(chunk, i, choice),
        choice.field("delta"@) is Some,
        fills(choice.field("delta"@)->0, "reasoning_content"@),
    ensures
        metrics.ttft_ns is None ==> observed(metrics, chunk, at_ns).ttft_ns == Some(at_ns),
{
    let choices = chunk.field("choices"@)->0->Array_0;
    assert(choice_shows(choices[i]));
}

/// The first chunk with a choice that carries tool calls sets the time to the first token.
pub proof fn law_tool_calls_are_output(metrics: StreamMetrics, chunk: JsonView, i: int, choice: JsonView, at_ns: u64)
    requires
        is_choice(chunk, i, choice),
        choice.field("delta"@) is Some,
        fills(choice.field("delta"@)->0, "tool_calls"@),
    ensures
        metrics.ttft_ns is None ==> observed(metrics, chunk, at_ns).ttft_ns == Some(at_ns),
{
    let choices = chunk.field("choices"@)->0->Array_0;
    assert(choice_shows(choices[i]));
}

/// The first chunk with a choice that carries plain text, and no delta, sets the time to the first
/// token.
pub proof fn law_plain_text_is_output(metrics: StreamMetrics, chunk: JsonView, i: int, choice: JsonView, at_ns: u64)
    requires
        is_choice(chunk, i, choice),
        choice.field("delta"@) is None,
        fills(choice, "text"@),
    ensures
        metrics.ttft_ns is None ==> observed(metrics, chunk, at_ns).ttft_ns == Some(at_ns),
{
    let choices = chunk.field("choices"@)->0->Array_0;
    assert(choice_shows(choices[i]));
}

/// Nothing else is output: a chunk whose choices carry no content, reasoning, tool calls or plain text
/// leaves the time to the first token open. Once it is set, no chunk changes it.
pub proof fn law_only_output_sets_the_first_token(metrics: StreamMetrics, chunk: JsonView, at_ns: u64)
    requires
        metrics.ttft_ns is Some || forall|i: int, choice: JsonView| #[trigger]
            is_choice(chunk, i, choice) ==> match choice.field("delta"@) {
                Some(delta) => !fills(delta, "content"@) && !fills(delta, "reasoning_content"@) && !fills(
                    delta,
                    "tool_calls"@,
                ),
                None => !fills(choice, "text"@),
            },
    ensures
        observed(metrics, chunk, at_ns).ttft_ns == metrics.ttft_ns,
{
    if metrics.ttft_ns is None && carries_output(chunk) {
        let choices = chunk.field("choices"@)->0->Array_0;
        let i = choose|i: int| 0 <= i < choices.len() && choice_shows(#[trigger] choices[i]);
        assert(is_choice(chunk, i, choices[i]));
    }
}

/// The output length is the last one that a chunk reports as its completion tokens.
pub proof fn law_usage_is_kept(metrics: StreamMetrics, chunk: JsonView, at_ns: u64)
    ensures
        ({
            let after = observed(metrics, chunk, at_ns);
            let usage = chunk.field("usage"@);
            let tokens = if usage is Some {
                usage->0.field("completion_tokens"@)
            } else {
                None
            };
            let number = if tokens is Some {
                tokens->0.whole()
            } else {
                None
            };
            &&& number is Some ==> after.output_tokens == number
            &&& number is None ==> after.output_tokens == metrics.output_tokens
        }),
{
}

proof fn lemma_trim_front(front: Seq<u8>, body: Seq<u8>)
    requires
        forall|i: int| 0 <= i < front.len() ==> space_byte(#[trigger] front[i]),
        body.len() > 0 ==> !space_byte(body[0]),
    ensures
        trimmed_start(front + body) == body,
    decreases front.len(),
{
    let whole = front + body;
    if front.len() > 0 {
        assert(whole[0] == front[0]);
        let rest = front.drop_first();
        assert forall|i: int| 0 <= i < rest.len() implies space_byte(#[trigger] rest[i]) by {
            assert(rest[i] == front[i + 1]);
        }
        lemma_trim_front(rest, body);
        assert(whole.drop_first() =~= rest + body);
    } else {
        assert(whole =~= body);
        if body.len() > 0 {
            assert(whole[0] == body[0]);
        }
    }
}

proof fn lemma_trim_back(body: Seq<u8>, back: Seq<u8>)
    requires
        forall|i: int| 0 <= i < back.len() ==> space_byte(#[trigger] back[i]),
        body.len() > 0 ==> !space_byte(body.last()),
    ensures
        trimmed_end(body + back) == body,
    decreases back.len(),
{
    let whole = body + back;
    if back.len() > 0 {
        assert(whole.last() == back.last());
        assert(space_byte(back[back.len() - 1]));
        let rest = back.drop_last();
        assert forall|i: int| 0 <= i < rest.len() implies space_byte(#[trigger] rest[i]) by {
            assert(rest[i] == back[i]);
        }
        lemma_trim_back(body, rest);
        assert(whole.drop_last() =~= body + rest);
    } else {
        assert(whole =~= body);
    }
}

proof fn lemma_unended_back(body: Seq<u8>, ending: Seq<u8>)
    requires
        forall|i: int| 0 <= i < ending.len() ==> #[trigger] ending[i] == 10 || ending[i] == 13,
        body.len() > 0 ==> body.last() != 10 && body.last() != 13,
    ensures
        unended(body + ending) == body,
    decreases ending.len(),
{
    let whole = body + ending;
    if ending.len() > 0 {
        assert(whole.last() == ending[ending.len() - 1]);
        let rest = ending.drop_last();
        assert forall|i: int| 0 <= i < rest.len() implies #[trigger] rest[i] == 10 || rest[i] == 13 by {
            assert(rest[i] == ending[i]);
        }
        lemma_unended_back(body, rest);
        assert(whole.drop_last() =~= body + rest);
    } else {
        assert(whole =~= body);
    }
}

/// A space, a tab, a line feed, a form feed or a carriage return.
pub open spec fn is_blank(b: u8) -> bool {
    b == 32 || b == 9 || b == 10 || b == 12 || b == 13
}

/// A data line carries what stands behind its name, without the white space around it, unless that is
/// nothing or the end mark.
pub proof fn law_data_lines_carry_their_data(front: Seq<u8>, body: Seq<u8>, back: Seq<u8>, ending: Seq<u8>)
    requires
        forall|i: int| 0 <= i < front.len() ==> is_blank(#[trigger] front[i]),
        forall|i: int| 0 <= i < back.len() ==> is_blank(#[trigger] back[i]),
        forall|i: int| 0 <= i < ending.len() ==> #[trigger] ending[i] == 10 || ending[i] == 13,
        back.len() > 0 ==> back.last() != 10 && back.last() != 13,
        body.len() > 0,
        !is_blank(body[0]),
        !is_blank(body.last()),
    ensures
        ({
            let line = seq![100u8, 97, 116, 97, 58] + front + body + back + ending;
            &&& body != seq![91u8, 68, 79, 78, 69, 93] ==> payload_of(line) == Some(body)
            &&& body == seq![91u8, 68, 79, 78, 69, 93] ==> payload_of(line) is None
        }),
{
    let name = seq![100u8, 97, 116, 97, 58];
    let text = name + front + body + back;
    let line = text + ending;
    if back.len() > 0 {
        assert(text.last() == back.last());
    } else {
        assert(text.last() == body.last());
    }
    lemma_unended_back(text, ending);
    assert(text.take(5) =~= name);
    assert(text.skip(5) =~= front + (body + back));
    assert((body + back)[0] == body[0]);
    lemma_trim_front(front, body + back);
    lemma_trim_back(body, back);
    assert(line =~= name + front + body + back + ending);
}

/// A line that does not start with the name of data carries nothing.
pub proof fn law_other_lines_carry_nothing(line: Seq<u8>)
    requires
        line.len() < 5 || line[0] != 100 || line[1] != 97 || line[2] != 116 || line[3] != 97 || line[4] != 58,
    ensures
        payload_of(line) is None,
{
    lemma_unended_prefix(line);
    let text = unended(line);
    if text.len() >= 5 && text.take(5) == data_prefix() {
        let start = text.take(5);
        assert(start[0] == line[0] && start[1] == line[1] && start[2] == line[2] && start[3] == line[3] && start[4]
            == line[4]);
    }
}

proof fn lemma_unended_prefix(line: Seq<u8>)
    ensures
        unended(line).len() <= line.len(),
        forall|i: int| 0 <= i < unended(line).len() ==> #[trigger] unended(line)[i] == line[i],
    decreases line.len(),
{
    if line.len() > 0 {
        let rest = line.drop_last();
        lemma_unended_prefix(rest);
        assert forall|i: int| 0 <= i < unended(line).len() implies #[trigger] unended(line)[i] == line[i] by {
            if unended(line) != line {
                assert(unended(line) == unended(rest));
                assert(unended(rest)[i] == rest[i]);
            }
        }
    }
}

/// Lines are taken one after the other: a first line with a payload gives it and leaves the rest, and
/// one without is passed over.
pub proof fn law_lines_are_taken_in_turn(line: Seq<u8>, rest: Seq<u8>)
    requires
        line.len() > 0,
        line.last() == 10,
        forall|i: int| 0 <= i < line.len() - 1 ==> #[trigger] line[i] != 10,
    ensures
        payload_of(line) is Some ==> next_payload(line + rest) == (payload_of(line), rest),
        payload_of(line) is None ==> next_payload(line + rest) == next_payload(rest),
{
    let whole = line + rest;
    lemma_feed(whole, line.len() - 1);
    assert(whole.take(line.len() as int) =~= line);
    assert(whole.skip(line.len() as int) =~= rest);
}

/// What has no line feed stays.
pub proof fn law_half_lines_stay(buffer: Seq<u8>)
    requires
        forall|i: int| 0 <= i < buffer.len() ==> #[trigger] buffer[i] != 10,
    ensures
        next_payload(buffer) == (None::<Seq<u8>>, buffer),
        all_payloads(buffer) == (Seq::<Seq<u8>>::empty(), buffer),
{
    lemma_feed(buffer, buffer.len() as int);
}

proof fn lemma_feed(bytes: Seq<u8>, n: int)
    requires
        0 <= n <= bytes.len(),
        forall|i: int| 0 <= i < n ==> #[trigger] bytes[i] != 10,
        n < bytes.len() ==> bytes[n] == 10,
    ensures
        line_feed(bytes) == n,
    decreases bytes.len(),
{
    if n > 0 {
        assert(bytes[0] != 10);
        let rest = bytes.drop_first();
        assert forall|i: int| 0 <= i < n - 1 implies #[trigger] rest[i] != 10 by {
            assert(rest[i] == bytes[i + 1]);
        }
        lemma_feed(rest, n - 1);
    }
}

// ---------------------------------------------------------------------------------------------
// Results
// ---------------------------------------------------------------------------------------------

/// An output has the length that it was to have exactly where both lengths are known and equal, and
/// another one exactly where both are known and differ.
pub proof fn law_lengths_match_where_they_are_equal(expected: Option<u32>, observed: Option<u64>)
    ensures
        length_match(expected, observed) == Some(true) <==> expected is Some && observed is Some && expected->0
            == observed->0,
        length_match(expected, observed) == Some(false) <==> expected is Some && observed is Some && expected->0
            != observed->0,
        length_match(expected, observed) is None <==> expected is None || observed is None,
{
}

/// The times of a request add up: where it was taken up on time and left after that, it left as late
/// as it was taken up and then waited for a slot; offsets count from the start of the run.
pub proof fn law_lags_add_up(
    result: RequestResult,
    times: DispatchTimes,
    scheduled_offset_ns: u64,
    metadata: PreparedMetadata,
)
    requires
        is_shell(result, times, scheduled_offset_ns, metadata),
        times.base_ns <= times.scheduled_ns <= times.scheduler_wake_ns <= times.dispatch_ns,
    ensures
        result.dispatch_lag_ns == result.scheduler_wake_lag_ns + result.local_admission_lag_ns,
        times.scheduled_ns + result.dispatch_lag_ns == times.dispatch_ns,
        times.scheduled_ns + result.scheduler_wake_lag_ns == times.scheduler_wake_ns,
        times.base_ns + result.scheduler_wake_offset_ns == times.scheduler_wake_ns,
        times.base_ns + result.dispatch_offset_ns == times.dispatch_ns,
        result.scheduled_offset_ns == scheduled_offset_ns,
{
}

/// A result stands for the request that left: it repeats its names, its session and what it expects, and
/// says nothing of a response yet.
pub proof fn law_results_stand_for_their_request(
    result: RequestResult,
    times: DispatchTimes,
    scheduled_offset_ns: u64,
    metadata: PreparedMetadata,
)
    requires
        is_shell(result, times, scheduled_offset_ns, metadata),
    ensures
        result.ordinal == metadata.ordinal,
        result.source_request_id@ == metadata.source_request_id@,
        result.replay_request_id@ == metadata.replay_request_id@,
        result.source_x_request_id == metadata.source_x_request_id,
        result.session_id is Some <==> metadata.agent_context is Some,
        metadata.agent_context is Some ==> result.session_id->0@ == metadata.agent_context->0.session_id@
            && result.parent_session_id == metadata.agent_context->0.parent_session_id,
        result.expected_input_tokens == metadata.input_tokens,
        result.expected_output_tokens == metadata.expected_output_tokens,
        result.compaction_attempt is Some <==> metadata.compaction_attempt is Some,
        metadata.compaction_attempt is Some ==> {
            let attempt = metadata.compaction_attempt->0;
            &&& result.compaction_operation_id->0@ == attempt.operation_id@
            &&& result.compaction_phase->0@ == attempt.phase@
            &&& result.compaction_attempt == Some(attempt.attempt)
            &&& result.compaction_expected_effect == Some(attempt.expected_effect)
        },
        result.status_code is None && result.ttft_ns is None && result.observed_output_tokens is None
            && result.output_length_match is None && result.planned_abort_match is None && result.error is None,
        !went_well(result),
{
}

/// A response stands for success exactly where its status code is in the two hundreds.
pub proof fn law_success_is_in_the_two_hundreds(status: u16)
    ensures
        successful(status) <==> status / 100 == 2,
{
}

/// A request that is early has no lag.
pub proof fn law_early_requests_have_no_lag(
    result: RequestResult,
    times: DispatchTimes,
    scheduled_offset_ns: u64,
    metadata: PreparedMetadata,
)
    requires
        is_shell(result, times, scheduled_offset_ns, metadata),
    ensures
        times.dispatch_ns <= times.scheduled_ns ==> result.dispatch_lag_ns == 0,
        times.scheduler_wake_ns <= times.scheduled_ns ==> result.scheduler_wake_lag_ns == 0,
        times.dispatch_ns <= times.scheduler_wake_ns ==> result.local_admission_lag_ns == 0,
{
}

/// Header `i` has a readable value under `name`.
pub open spec fn gives(headers: Seq<(String, Option<String>)>, i: int, name: Seq<char>) -> bool {
    headers[i].0@ == name && headers[i].1 is Some
}

/// A header that results keep: the request identifier, or one of the target's own.
pub open spec fn is_kept(name: Seq<char>) -> bool {
    name == "x-request-id"@ || name.len() >= 9 && name.subrange(0, 9) == "x-dynamo-"@
}

/// Results keep headers by the names of the request identifier and of the target, under the last
/// readable value that came.
pub proof fn law_kept_headers(headers: Seq<(String, Option<String>)>, n: nat, last: int)
    requires
        0 <= last < n <= headers.len(),
        gives(headers, last, headers[last].0@),
        forall|j: int| last < j < n ==> !#[trigger] gives(headers, j, headers[last].0@),
    ensures
        is_kept(headers[last].0@) ==> kept_headers(headers, n).contains_pair(headers[last].0@, headers[last].1->0@),
        !is_kept(headers[last].0@) ==> !kept_headers(headers, n).contains_key(headers[last].0@),
    decreases n,
{
    let name = headers[last].0@;
    reveal_strlit("x-dynamo-");
    assert(name.len() >= 9 ==> name.take(9) =~= name.subrange(0, 9));
    if last < n - 1 {
        assert(!gives(headers, n - 1, name));
        law_kept_headers(headers, (n - 1) as nat, last);
    } else if !is_kept(name) {
        lemma_other_headers(headers, n, name);
    }
}

/// A header that never had a readable value is not kept.
pub proof fn law_missing_headers(headers: Seq<(String, Option<String>)>, n: nat, name: Seq<char>)
    requires
        n <= headers.len(),
        forall|j: int| 0 <= j < n ==> !#[trigger] gives(headers, j, name),
    ensures
        !kept_headers(headers, n).contains_key(name),
    decreases n,
{
    if n > 0 {
        assert(!gives(headers, n - 1, name));
        law_missing_headers(headers, (n - 1) as nat, name);
    }
}

proof fn lemma_other_headers(headers: Seq<(String, Option<String>)>, n: nat, name: Seq<char>)
    requires
        n <= headers.len(),
        !is_kept(name),
    ensures
        !kept_headers(headers, n).contains_key(name),
    decreases n,
{
    reveal_strlit("x-dynamo-");
    assert(name.len() >= 9 ==> name.take(9) =~= name.subrange(0, 9));
    if n > 0 {
        lemma_other_headers(headers, (n - 1) as nat, name);
    }
}

/// A refusal is told with the start of its body: all of it, or its first characters.
pub proof fn law_refusals_quote_the_body(status: Seq<char>, body: Seq<char>)
    ensures
        ({
            let shown = refusal_text(status, body);
            let head = "HTTP "@ + status + ": "@;
            &&& head.is_prefix_of(shown)
            &&& shown.skip(head.len() as int).is_prefix_of(body)
            &&& shown.len() <= head.len() + 512
            &&& body.len() <= 512 ==> shown == head + body
            &&& body.len() > 512 ==> shown.len() == head.len() + 512
        }),
{
    let shown = refusal_text(status, body);
    let head = "HTTP "@ + status + ": "@;
    let tail = if body.len() <= 512 {
        body
    } else {
        body.take(512)
    };
    assert(shown =~= head + tail);
    assert(head =~= shown.take(head.len() as int));
    assert(shown.skip(head.len() as int) =~= tail);
    assert(tail =~= body.take(tail.len() as int));
}

// ---------------------------------------------------------------------------------------------
// Totals
// ---------------------------------------------------------------------------------------------

/// What is counted over the first `n` results.
pub open spec fn tally_of(results: Seq<RequestResult>, n: nat, p99_limit_ns: u64) -> RunCounts
    decreases n,
{
    if n == 0 {
        RunCounts::none()
    } else {
        counted(tally_of(results, (n - 1) as nat, p99_limit_ns), results[n - 1], p99_limit_ns)
    }
}

/// A result is one of success: an abort that came as planned, or a response below the error codes
/// without an error.
pub open spec fn went_well(result: RequestResult) -> bool {
    ||| result.planned_abort_match == Some(true)
    ||| result.error is None && result.status_code is Some && result.status_code->0 < 400
}

/// A request was to be given up on.
pub open spec fn was_to_abort(result: RequestResult) -> bool {
    result.compaction_expected_effect == Some(CompactionExpectedEffect::NoMutationAborted)
}

/// The totals count results: all of them, those that went well, those with a budget and without one,
/// those whose output had the wanted length, another one or none that is known, and those that were
/// to be given up on, and were or were not.
pub proof fn law_totals_count_results(results: Seq<RequestResult>, n: nat, p99_limit_ns: u64)
    requires
        n <= results.len(),
        n <= usize::MAX,
    ensures
        ({
            let counts = tally_of(results, n, p99_limit_ns);
            &&& counts.request_count == n
            &&& counts.succeeded == how_many(n, |i: int| went_well(results[i]))
            &&& counts.budgeted_requests == how_many(n, |i: int| results[i].expected_output_tokens is Some)
            &&& counts.unbudgeted_requests == how_many(n, |i: int| results[i].expected_output_tokens is None)
            &&& counts.output_length_matches == how_many(
                n,
                |i: int| results[i].expected_output_tokens is Some && results[i].output_length_match == Some(true),
            )
            &&& counts.output_length_mismatches == how_many(
                n,
                |i: int| results[i].expected_output_tokens is Some && results[i].output_length_match == Some(false),
            )
            &&& counts.missing_output_usage == how_many(
                n,
                |i: int| results[i].expected_output_tokens is Some && results[i].output_length_match is None,
            )
            &&& counts.planned_aborts == how_many(n, |i: int| was_to_abort(results[i]))
            &&& counts.planned_abort_matches == how_many(
                n,
                |i: int| was_to_abort(results[i]) && results[i].planned_abort_match == Some(true),
            )
            &&& counts.planned_abort_mismatches == how_many(
                n,
                |i: int| was_to_abort(results[i]) && results[i].planned_abort_match != Some(true),
            )
            &&& counts.dispatch_at_or_below_p99_limit == how_many(
                n,
                |i: int| results[i].dispatch_lag_ns <= p99_limit_ns,
            )
            &&& forall|i: int| 0 <= i < n ==> (#[trigger] results[i]).dispatch_lag_ns <= counts.dispatch_max_ns
            &&& n > 0 ==> exists|i: int| 0 <= i < n && (#[trigger] results[i]).dispatch_lag_ns == counts.dispatch_max_ns
            &&& counts.adds_up()
        }),
    decreases n,
{
    if n > 0 {
        let m = (n - 1) as nat;
        law_totals_count_results(results, m, p99_limit_ns);
        let before = tally_of(results, m, p99_limit_ns);
        let result = results[n - 1];
        match result.output_length_match {
            Some(true) => {},
            Some(false) => {},
            None => {},
        }
        let counts = tally_of(results, n, p99_limit_ns);
        if n > 1 && counts.dispatch_max_ns != result.dispatch_lag_ns {
            let i = choose|i: int| 0 <= i < m && (#[trigger] results[i]).dispatch_lag_ns == before.dispatch_max_ns;
            assert(results[i].dispatch_lag_ns == counts.dispatch_max_ns);
        }
        assert(results[n - 1].dispatch_lag_ns <= counts.dispatch_max_ns);
    }
}

proof fn lemma_how_many_all(n: nat, property: spec_fn(int) -> bool, i: int)
    requires
        0 <= i < n,
    ensures
        how_many(n, property) <= n,
        how_many(n, property) == n ==> property(i),
    decreases n,
{
    if n == 1 {
        reveal_with_fuel(how_many, 2);
    } else {
        let other = if i < n - 1 {
            i
        } else {
            0
        };
        lemma_how_many_all((n - 1) as nat, property, other);
    }
}

proof fn lemma_how_many_implied(n: nat, some: spec_fn(int) -> bool, more: spec_fn(int) -> bool, i: int)
    requires
        forall|k: int| #[trigger] some(k) ==> more(k),
        how_many(n, some) == how_many(n, more),
        0 <= i < n,
        more(i),
    ensures
        some(i),
    decreases n,
{
    lemma_how_many_grows((n - 1) as nat, some, more);
    if i < n - 1 {
        assert(some(n - 1) ==> more(n - 1));
        lemma_how_many_implied((n - 1) as nat, some, more, i);
    }
}

proof fn lemma_how_many_grows(n: nat, some: spec_fn(int) -> bool, more: spec_fn(int) -> bool)
    requires
        forall|k: int| #[trigger] some(k) ==> more(k),
    ensures
        how_many(n, some) <= how_many(n, more),
    decreases n,
{
    if n > 0 {
        lemma_how_many_grows((n - 1) as nat, some, more);
        assert(some(n - 1) ==> more(n - 1));
    }
}

/// A run that passes has no output of another length than expected, no missing usage, no failed
/// request and no abort that went otherwise, and it sent every request of its source.
pub proof fn law_passed_runs_have_no_mismatch(
    summary: RunSummary,
    identity: SummaryIdentity,
    source: TraceManifest,
    dictionary: TokenDictionaryManifest,
    options: ReplayOptions,
    accumulator: RunAccumulator,
    max_limit_ns: u64,
    elapsed_ns: u64,
)
    requires
        is_summary(summary, identity, source, dictionary, options, accumulator, max_limit_ns, elapsed_ns),
        accumulator.totals().adds_up(),
    ensures
        summary.passed <==> summary.request_fidelity_matches && summary.dispatch_timing_matches,
        summary.request_fidelity_matches <==> {
            &&& summary.counts.output_length_mismatches == 0
            &&& summary.counts.missing_output_usage == 0
            &&& summary.counts.planned_abort_mismatches == 0
            &&& summary.failed == 0
            &&& summary.counts.request_count == source.request_count
        },
        summary.dispatch_timing_matches <==> {
            &&& summary.counts.dispatch_max_ns <= max_limit_ns
            &&& 100 * (summary.counts.request_count - summary.counts.dispatch_at_or_below_p99_limit)
                <= summary.counts.request_count
        },
        summary.failed + summary.counts.succeeded == summary.counts.request_count,
        summary.counts == accumulator.totals(),
        summary.dispatch_lag_max_ns == summary.counts.dispatch_max_ns,
{
}

/// A run passes exactly where it sent as many requests as its source has, each of them went well, each
/// output with a budget had the wanted length, each planned abort came to pass, no request left later
/// than the greatest lag allowed, and at most one in a hundred later than the limit on the
/// ninety-ninth percentile.
pub proof fn law_passing_is_about_every_result(
    summary: RunSummary,
    identity: SummaryIdentity,
    source: TraceManifest,
    dictionary: TokenDictionaryManifest,
    options: ReplayOptions,
    accumulator: RunAccumulator,
    max_limit_ns: u64,
    elapsed_ns: u64,
    results: Seq<RequestResult>,
    p99_limit_ns: u64,
)
    requires
        is_summary(summary, identity, source, dictionary, options, accumulator, max_limit_ns, elapsed_ns),
        accumulator.totals() == tally_of(results, results.len(), p99_limit_ns),
        results.len() <= usize::MAX,
    ensures
        summary.passed ==> {
            &&& results.len() == source.request_count
            &&& forall|i: int|
                0 <= i < results.len() ==> {
                    let result = #[trigger] results[i];
                    &&& went_well(result)
                    &&& result.expected_output_tokens is Some ==> result.output_length_match == Some(true)
                    &&& was_to_abort(result) ==> result.planned_abort_match == Some(true)
                    &&& result.dispatch_lag_ns <= max_limit_ns
                }
            &&& 100 * how_many(results.len(), |i: int| results[i].dispatch_lag_ns > p99_limit_ns) <= results.len()
        },
{
    let n = results.len();
    law_totals_count_results(results, n, p99_limit_ns);
    let counts = tally_of(results, n, p99_limit_ns);
    let late = |i: int| results[i].dispatch_lag_ns > p99_limit_ns;
    let early = |i: int| results[i].dispatch_lag_ns <= p99_limit_ns;
    lemma_how_many_split(n, early, late);
    if summary.passed {
        let well = |i: int| went_well(results[i]);
        let budgeted = |i: int| results[i].expected_output_tokens is Some;
        let right = |i: int|
            results[i].expected_output_tokens is Some && results[i].output_length_match == Some(true);
        let aborts = |i: int| was_to_abort(results[i]);
        let aborted = |i: int| was_to_abort(results[i]) && results[i].planned_abort_match == Some(true);
        assert forall|i: int| 0 <= i < n implies {
            let result = #[trigger] results[i];
            &&& went_well(result)
            &&& result.expected_output_tokens is Some ==> result.output_length_match == Some(true)
            &&& was_to_abort(result) ==> result.planned_abort_match == Some(true)
            &&& result.dispatch_lag_ns <= max_limit_ns
        } by {
            lemma_how_many_all(n, well, i);
            assert(well(i));
            if budgeted(i) {
                lemma_how_many_implied(n, right, budgeted, i);
            }
            if aborts(i) {
                lemma_how_many_implied(n, aborted, aborts, i);
            }
        }
    }
}

proof fn lemma_how_many_split(n: nat, a: spec_fn(int) -> bool, b: spec_fn(int) -> bool)
    requires
        forall|i: int| #[trigger] a(i) <==> !b(i),
    ensures
        how_many(n, a) + how_many(n, b) == n,
    decreases n,
{
    if n > 0 {
        lemma_how_many_split((n - 1) as nat, a, b);
        assert(a(n - 1) <==> !b(n - 1));
    }
}

/// Conclusions about capacity are allowed exactly where the token path is verified and the cache mode
/// of the engine is declared; what is missing is named.
pub proof fn law_conclusions_need_both(
    summary: RunSummary,
    identity: SummaryIdentity,
    source: TraceManifest,
    dictionary: TokenDictionaryManifest,
    options: ReplayOptions,
    accumulator: RunAccumulator,
    max_limit_ns: u64,
    elapsed_ns: u64,
)
    requires
        is_summary(summary, identity, source, dictionary, options, accumulator, max_limit_ns, elapsed_ns),
    ensures
        ({
            let declared = options.engine_cache_mode@ != Map::<Seq<char>, Seq<char>>::empty();
            let blockers = crate::contracts::texts(summary.conclusion_blockers@);
            &&& summary.capacity_performance_conclusions_allowed <==> options.token_path_verified && declared
            &&& blockers.contains("token_path_unverified"@) || options.token_path_verified
            &&& blockers.contains("engine_cache_mode_undeclared"@) || declared
            &&& blockers.len() == (if options.token_path_verified {
                0int
            } else {
                1
            }) + (if declared {
                0int
            } else {
                1
            })
        }),
{
    let declared = options.engine_cache_mode@ != Map::<Seq<char>, Seq<char>>::empty();
    let blockers = blockers_of(options.token_path_verified, declared);
    if !options.token_path_verified {
        assert(blockers[0] == "token_path_unverified"@);
    }
    if !declared {
        assert(blockers[blockers.len() - 1] == "engine_cache_mode_undeclared"@);
    }
}

/// Nanoseconds round to the nearest microsecond, ties to the even one.
pub proof fn law_microseconds_are_nearest(nanoseconds: u64)
    ensures
        -500 <= nanoseconds - 1000 * microseconds(nanoseconds) <= 500,
        nanoseconds - 1000 * microseconds(nanoseconds) == 500 || nanoseconds - 1000 * microseconds(nanoseconds)
            == -500 ==> microseconds(nanoseconds) % 2 == 0,
{
}

/// The percentiles of lags are those that their names say, and all zero where there are none.
pub proof fn law_percentiles_are_reported_under_their_names(values: vstd::multiset::Multiset<u64>, digits: u8)
    ensures
        ({
            let shown = reported(values, digits);
            let some = values != vstd::multiset::Multiset::<u64>::empty();
            &&& some ==> shown.min == reported_min(values, digits)
            &&& some ==> shown.p50 == reported_at(values, digits, 50)
            &&& some ==> shown.p95 == reported_at(values, digits, 95)
            &&& some ==> shown.p99 == reported_at(values, digits, 99)
            &&& some ==> shown.max == reported_max(values, digits)
            &&& !some ==> shown.min == 0 && shown.p50 == 0 && shown.p95 == 0 && shown.p99 == 0 && shown.max == 0
        }),
{
}

/// A summary repeats the settings of its run and what it was made of, names the static headers without
/// their values, and keeps the three kinds of lag apart.
pub proof fn law_summaries_tell_what_was_run(
    summary: RunSummary,
    identity: SummaryIdentity,
    source: TraceManifest,
    dictionary: TokenDictionaryManifest,
    options: ReplayOptions,
    accumulator: RunAccumulator,
    max_limit_ns: u64,
    elapsed_ns: u64,
    i: int,
)
    requires
        is_summary(summary, identity, source, dictionary, options, accumulator, max_limit_ns, elapsed_ns),
    ensures
        summary.run_id == identity.run_id,
        summary.target == identity.target,
        summary.agent == options.agent,
        summary.model == options.model,
        summary.time_scale == options.time_scale,
        summary.max_in_flight == options.max_in_flight,
        summary.max_dispatch_p99_ms == options.max_dispatch_p99_ms,
        summary.max_dispatch_max_ms == options.max_dispatch_max_ms,
        summary.token_path_verified == options.token_path_verified,
        summary.source == source,
        summary.token_dictionary == dictionary,
        summary.total_time_ns == elapsed_ns,
        identity.traffic_kind is CapturedTrace ==> summary.scheduling_model@ == "agentic_causal"@,
        identity.traffic_kind is SyntheticKvShape ==> summary.scheduling_model@ == "generated_causal"@,
        summary.static_header_names@.len() == options.static_headers@.len(),
        0 <= i < options.static_headers@.len() ==> summary.static_header_names@[i]@ == options.static_headers@[i].0@,
        summary.scheduler_wake_lag_us == reported(accumulator.wake_lags(), 3),
        summary.dispatch_lag_us == reported(accumulator.dispatch_lags(), 3),
        summary.local_admission_lag_us == reported(accumulator.admission_lags(), 3),
{
    let shown = crate::contracts::texts(summary.static_header_names@);
    assert(shown.len() == summary.static_header_names@.len());
    assert(crate::replay::artifacts::names_of(options.static_headers@).len() == options.static_headers@.len());
    if 0 <= i < options.static_headers@.len() {
        assert(shown[i] == summary.static_header_names@[i]@);
    }
}

} // verus!
