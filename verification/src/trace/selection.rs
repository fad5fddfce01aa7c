//! What reading and selecting a trace keeps of it.

use crate::contracts::{TraceManifest, TraceRequest};
use crate::fidelity::how_many;
use crate::numeric::ceil_div;
use crate::ordered::{is_sorted, Ranked};
use crate::trace::flat::{capped, chosen, record_effect, renumbered, record_of};
use crate::trace::index::{
    contexts_in, id_set, is_totals, request_hashes, selection_failure, sessions_of, sums_of, totals_failure,
};
use crate::trace::load::{
    block_sizes, hash_set, is_loaded, is_manifest, limited, load_failure, line_effect, manifest_failure, numbered,
    of_session, session_of, session_set, token_totals, LineEffect, LineError, LoadedTrace,
};
use crate::trace::record::{
    is_tool_entry, line_record, request_entry, tool_is_placed, JsonLineEnvelope, RecordError, RequestEntry,
    ToolEntry, TraceEventEnvelope, TraceRecord, TraceRecordFields,
};
use vstd::prelude::*;

verus! {

// ---------------------------------------------------------------------------------------------
// Records
// ---------------------------------------------------------------------------------------------

/// The largest moment that fits.
pub open spec fn latest_ms() -> int {
    0x7fff_ffff_ffff_ffff
}

/// A request takes from its record what the record says, runs from when it was received for as long as
/// it took, or else up to its event, and has just enough hashes for its input.
pub proof fn law_requests_say_what_their_record_does(record: TraceRecord)
    requires
        request_entry(record) is Ok,
    ensures
        ({
            let entry = request_entry(record)->Ok_0;
            let metrics = record.request->0;
            let shape = metrics.replay->0;
            let received = metrics.request_received_ms->0;
            let hashes = entry.request.input_sequence_hashes@;
            &&& record.request is Some
            &&& metrics.replay is Some
            &&& metrics.request_received_ms is Some
            &&& entry.request.source_request_id@ == metrics.request_id@
            &&& entry.request.request_received_ms == received
            &&& entry.request.input_tokens == shape.input_length
            &&& entry.request.input_tokens > 0
            &&& metrics.input_tokens is Some ==> metrics.input_tokens->0 == entry.request.input_tokens
            &&& metrics.output_tokens is Some
            &&& entry.request.output_tokens == metrics.output_tokens->0
            &&& entry.request.output_tokens > 0
            &&& entry.request.trace_block_size == shape.trace_block_size
            &&& entry.request.trace_block_size > 0
            &&& hashes == shape.input_sequence_hashes@
            &&& (hashes.len() - 1) * entry.request.trace_block_size < entry.request.input_tokens
            &&& entry.request.input_tokens <= hashes.len() * entry.request.trace_block_size
            &&& entry.request.agent_context == record.agent_context
            &&& 0 <= entry.start_ms <= entry.end_ms
            &&& received <= latest_ms() ==> entry.start_ms == received
            &&& metrics.total_time_ms is Some && received + metrics.total_time_ms->0 <= latest_ms() ==> entry.end_ms
                == received + metrics.total_time_ms->0
            &&& metrics.total_time_ms is None && received <= record.event_time_unix_ms <= latest_ms()
                ==> entry.end_ms == record.event_time_unix_ms
            &&& metrics.total_time_ms is None && record.event_time_unix_ms <= received ==> entry.end_ms
                == entry.start_ms
        }),
{
    let shape = record.request->0.replay->0;
    lemma_ceil(shape.input_length as nat, shape.trace_block_size as nat);
}

proof fn lemma_ceil(a: nat, b: nat)
    requires
        b > 0,
        a > 0,
    ensures
        (ceil_div(a, b) - 1) * b < a,
        a <= ceil_div(a, b) * b,
{
    let q = ceil_div(a, b) as int;
    let r = (a + b - 1) % (b as int);
    vstd::arithmetic::div_mod::lemma_fundamental_div_mod(a + b - 1, b as int);
    assert((q - 1) * b < a && a <= q * b) by (nonlinear_arith)
        requires
            a + b - 1 == b * q + r,
            0 <= r < b,
    ;
}

/// A record that has a shape, lengths that agree and a time yields a request.
pub proof fn law_whole_records_yield_requests(record: TraceRecord)
    ensures
        request_entry(record) is Ok <==> {
            let metrics = record.request->0;
            let shape = metrics.replay->0;
            &&& record.request is Some
            &&& metrics.replay is Some
            &&& shape.trace_block_size > 0
            &&& shape.input_length > 0
            &&& (shape.input_sequence_hashes@.len() - 1) * shape.trace_block_size < shape.input_length
            &&& shape.input_length <= shape.input_sequence_hashes@.len() * shape.trace_block_size
            &&& metrics.input_tokens is Some ==> metrics.input_tokens->0 == shape.input_length
            &&& metrics.output_tokens is Some
            &&& 1 <= metrics.output_tokens->0 <= u32::MAX
            &&& metrics.request_received_ms is Some
        },
{
    if record.request is Some && record.request->0.replay is Some {
        let shape = record.request->0.replay->0;
        if shape.trace_block_size > 0 && shape.input_length > 0 {
            let a = shape.input_length as int;
            let b = shape.trace_block_size as int;
            let n = shape.input_sequence_hashes@.len() as int;
            let q = ceil_div(a as nat, b as nat) as int;
            lemma_ceil(a as nat, b as nat);
            if (n - 1) * b < a && a <= n * b {
                assert(n == q) by (nonlinear_arith)
                    requires
                        (n - 1) * b < a,
                        a <= n * b,
                        (q - 1) * b < a,
                        a <= q * b,
                        b > 0,
                ;
            }
        }
    }
}

/// A tool call takes from its record what the record says: it belongs to the session that made it, ends
/// when it ended, or else at its event, and starts when it started, or else as long before its end as
/// it took. A call that would end before it starts is left out.
pub proof fn law_tools_say_what_their_record_does(record: TraceRecord, entry: ToolEntry)
    requires
        tool_is_placed(record),
        is_tool_entry(record, entry),
    ensures
        ({
            let tool = record.tool->0;
            &&& record.agent_context is Some
            &&& record.tool is Some
            &&& entry.session_id@ == record.agent_context->0.session_id@
            &&& entry.tool_call_id@ == tool.tool_call_id@
            &&& entry.tool_class@ == tool.tool_class@
            &&& entry.start_ms <= entry.end_ms
            &&& tool.ended_at_unix_ms is Some && tool.ended_at_unix_ms->0 <= latest_ms() ==> entry.end_ms
                == tool.ended_at_unix_ms->0
            &&& tool.ended_at_unix_ms is None && record.event_time_unix_ms <= latest_ms() ==> entry.end_ms
                == record.event_time_unix_ms
            &&& tool.started_at_unix_ms is Some && tool.started_at_unix_ms->0 <= latest_ms() ==> entry.start_ms
                == tool.started_at_unix_ms->0
            &&& tool.started_at_unix_ms is None && tool.duration_ms is Some && tool.duration_ms->0 <= latest_ms()
                ==> entry.end_ms - entry.start_ms == tool.duration_ms->0
            &&& tool.started_at_unix_ms is None && tool.duration_ms is None ==> entry.start_ms == entry.end_ms
            &&& tool.duration_ms is Some ==> entry.duration_ms == tool.duration_ms->0
            &&& tool.duration_ms is None ==> entry.duration_ms == entry.end_ms - entry.start_ms
            &&& tool.status is Some ==> entry.status@ == tool.status->0@
            &&& tool.status is None ==> (entry.status@ == "error"@ <==> record.event_type@ == "tool_error"@)
            &&& entry.output_tokens == tool.output_tokens
            &&& entry.output_bytes == tool.output_bytes
        }),
{
    reveal_strlit("error");
    reveal_strlit("succeeded");
    assert("error"@.len() != "succeeded"@.len());
}

/// A tool call is left out exactly where it tells no session, or where both its times are known and
/// the first is the later one.
pub proof fn law_tools_are_left_out_where_time_runs_backwards(record: TraceRecord)
    requires
        record.agent_context is Some,
        record.tool is Some,
    ensures
        ({
            let tool = record.tool->0;
            let end: int = if tool.ended_at_unix_ms is Some {
                tool.ended_at_unix_ms->0 as int
            } else {
                record.event_time_unix_ms as int
            };
            tool.started_at_unix_ms is Some && tool.started_at_unix_ms->0 <= latest_ms() && end <= latest_ms() ==> (
            tool_is_placed(record) <==> tool.started_at_unix_ms->0 <= end)
        }),
        record.tool->0.started_at_unix_ms is None ==> tool_is_placed(record),
{
}

/// A line stands for the event that it wraps, where it wraps one, and else for itself; payloads and
/// lines that are no objects are passed over; a record needs a schema, a type and a time.
pub proof fn law_lines_stand_for_their_event(record: TraceRecordFields, inner: TraceRecordFields)
    ensures
        ({
            let direct = JsonLineEnvelope::Object(
                crate::trace::record::TraceRecordEnvelope { record, event: None },
            );
            let wrapped = JsonLineEnvelope::Object(
                crate::trace::record::TraceRecordEnvelope { record, event: Some(TraceEventEnvelope::Object(inner)) },
            );
            let other = JsonLineEnvelope::Object(
                crate::trace::record::TraceRecordEnvelope { record, event: Some(TraceEventEnvelope::Other) },
            );
            let plain = JsonLineEnvelope::Object(
                crate::trace::record::TraceRecordEnvelope { record: inner, event: None },
            );
            let whole = record.schema is Some && record.event_type is Some && record.event_time_unix_ms is Some;
            let payload = record.event_type is Some && record.event_type->0@ == "request_payload"@;
            &&& line_record(wrapped) == line_record(plain)
            &&& line_record(other) == Ok::<Option<TraceRecord>, RecordError>(None)
            &&& line_record(JsonLineEnvelope::Other) == Ok::<Option<TraceRecord>, RecordError>(None)
            &&& payload ==> line_record(direct) == Ok::<Option<TraceRecord>, RecordError>(None)
            &&& !payload && !whole ==> line_record(direct) is Err
            &&& !payload && whole ==> {
                let read = line_record(direct)->Ok_0->0;
                &&& line_record(direct) is Ok
                &&& line_record(direct)->Ok_0 is Some
                &&& read.schema@ == record.schema->0@
                &&& read.event_type@ == record.event_type->0@
                &&& read.event_time_unix_ms == record.event_time_unix_ms->0
                &&& read.agent_context == record.agent_context
                &&& read.request == record.request
                &&& read.tool == record.tool
            }
        }),
{
}

/// What a line adds to a trace: a request that ended adds itself, once; a tool that ended adds itself;
/// anything else of the schema is passed over or refused, and so is every other schema.
pub proof fn law_lines_add_what_ended(line: JsonLineEnvelope, seen: Set<Seq<char>>)
    ensures
        match line_effect(line, seen) {
            LineEffect::Request { entry } => {
                let record = line_record(line)->Ok_0->0;
                &&& record.schema@ == "dynamo.request.trace.v1"@
                &&& record.event_type@ == "request_end"@
                &&& request_entry(record) == Ok::<RequestEntry, RecordError>(entry)
                &&& !seen.contains(entry.request.source_request_id@)
            },
            LineEffect::Tool { record } => {
                &&& line_record(line) == Ok::<Option<TraceRecord>, RecordError>(Some(record))
                &&& record.schema@ == "dynamo.request.trace.v1"@
                &&& record.event_type@ == "tool_end"@ || record.event_type@ == "tool_error"@
                &&& tool_is_placed(record)
            },
            LineEffect::Nothing => {
                line_record(line) is Ok && (line_record(line)->Ok_0 is Some ==> {
                    let record = line_record(line)->Ok_0->0;
                    &&& record.schema@ == "dynamo.request.trace.v1"@
                    &&& record.event_type@ != "request_end"@
                    &&& record.event_type@ == "tool_end"@ || record.event_type@ == "tool_error"@ ==> !tool_is_placed(
                        record,
                    )
                })
            },
            LineEffect::Refused { error } => {
                line_record(line) is Ok ==> {
                    let record = line_record(line)->Ok_0->0;
                    ||| record.schema@ != "dynamo.request.trace.v1"@
                    ||| record.event_type@ == "request_end"@ && request_entry(record) is Err
                    ||| record.event_type@ == "request_end"@ && seen.contains(
                        request_entry(record)->Ok_0.request.source_request_id@,
                    )
                    ||| record.event_type@ != "request_end"@ && record.event_type@ != "request_payload"@
                        && record.event_type@ != "tool_start"@ && record.event_type@ != "tool_end"@
                        && record.event_type@ != "tool_error"@
                }
            },
        },
{
    reveal_strlit("request_payload");
    reveal_strlit("tool_start");
    reveal_strlit("tool_end");
    reveal_strlit("tool_error");
    reveal_strlit("request_end");
    assert("request_payload"@.len() == 15);
    assert("tool_start"@.len() == 10);
    assert("tool_end"@.len() == 8);
    assert("tool_error"@.len() == 10);
    assert("request_end"@.len() == 11);
    assert("tool_start"@[5] == 's');
    assert("tool_error"@[5] == 'e');
}

// ---------------------------------------------------------------------------------------------
// Selection
// ---------------------------------------------------------------------------------------------

/// The sum of a quantity over the first `n` places.
pub open spec fn added_up(n: nat, amount: spec_fn(int) -> nat) -> nat
    decreases n,
{
    if n == 0 {
        0
    } else {
        added_up((n - 1) as nat, amount) + amount(n - 1)
    }
}

proof fn lemma_added_up_same(n: nat, a: spec_fn(int) -> nat, b: spec_fn(int) -> nat)
    requires
        forall|i: int| 0 <= i < n ==> #[trigger] a(i) == b(i),
    ensures
        added_up(n, a) == added_up(n, b),
    decreases n,
{
    if n > 0 {
        lemma_added_up_same((n - 1) as nat, a, b);
        assert(a(n - 1) == b(n - 1));
    }
}

/// Requests are in order of when they started, then of when they ended.
pub proof fn law_requests_are_in_order_of_time(sorted: Seq<RequestEntry>, i: int, j: int)
    requires
        is_sorted(sorted),
        0 <= i < j < sorted.len(),
    ensures
        sorted[i].start_ms <= sorted[j].start_ms,
        sorted[i].start_ms == sorted[j].start_ms ==> sorted[i].end_ms <= sorted[j].end_ms,
{
    assert(sorted[i].ranks_before(sorted[j]));
}

/// A trace can be loaded only where it has requests, each of them tells its session, and the session
/// that is asked for is one of them.
pub proof fn law_loading_needs_sessions(
    sorted: Seq<RequestEntry>,
    max_requests: Option<usize>,
    session: Option<Seq<char>>,
    i: int,
)
    ensures
        load_failure(sorted, max_requests, session) is None ==> sorted.len() > 0,
        0 <= i < sorted.len() && sorted[i].request.agent_context is None ==> load_failure(
            sorted,
            max_requests,
            session,
        ) is Some,
        load_failure(sorted, max_requests, session) is None && session is Some ==> exists|k: int|
            0 <= k < sorted.len() && (#[trigger] sorted[k]).request.agent_context->0.session_id@ == session->0,
{
    if load_failure(sorted, max_requests, session) is None && session is Some {
        let id = session->0;
        let wanted = |entry: RequestEntry| session_of(entry) == id;
        let kept = sorted.filter(wanted);
        assert(of_session(sorted, session) == kept);
        broadcast use vstd::seq_lib::group_filter_ensures;

        assert(wanted(kept[0]));
        assert(kept.contains(kept[0]));
        sorted.lemma_filter_contains_rev(wanted, kept[0]);
        let k = sorted.index_of(kept[0]);
        assert(sorted[k].request.agent_context->0.session_id@ == id);
    }
}

/// What is loaded of a trace, where no session is asked for: the first requests, as many as are wanted,
/// in order, each numbered by its place and otherwise as it was.
pub proof fn law_loading_keeps_the_first(
    loaded: LoadedTrace,
    sorted: Seq<RequestEntry>,
    tools: Seq<ToolEntry>,
    source: Seq<u8>,
    max_requests: Option<usize>,
    i: int,
)
    requires
        is_loaded(loaded, sorted, tools, source, max_requests, None),
        0 <= i < loaded.requests@.len(),
        sorted.len() <= usize::MAX,
    ensures
        max_requests is None || sorted.len() <= max_requests->0 ==> loaded.requests@.len() == sorted.len(),
        max_requests is Some && max_requests->0 <= sorted.len() ==> loaded.requests@.len() == max_requests->0,
        loaded.requests@[i].request.ordinal == i,
        loaded.requests@[i].start_ms == sorted[i].start_ms,
        loaded.requests@[i].end_ms == sorted[i].end_ms,
        loaded.requests@[i].request.source_request_id == sorted[i].request.source_request_id,
        loaded.requests@[i].request.input_tokens == sorted[i].request.input_tokens,
        loaded.requests@[i].request.output_tokens == sorted[i].request.output_tokens,
        loaded.requests@[i].request.request_received_ms == sorted[i].request.request_received_ms,
        loaded.requests@[i].request.input_sequence_hashes == sorted[i].request.input_sequence_hashes,
        loaded.requests@[i].request.agent_context == sorted[i].request.agent_context,
{
}

/// Of one session, what is loaded are requests of that session, in order, numbered by place; and none
/// of them is missing where no limit cuts them off.
pub proof fn law_loading_keeps_one_session(
    loaded: LoadedTrace,
    sorted: Seq<RequestEntry>,
    tools: Seq<ToolEntry>,
    source: Seq<u8>,
    max_requests: Option<usize>,
    session: Seq<char>,
    i: int,
)
    requires
        is_loaded(loaded, sorted, tools, source, max_requests, Some(session)),
        sorted.len() <= usize::MAX,
    ensures
        0 <= i < loaded.requests@.len() ==> loaded.requests@[i].request.ordinal == i && session_of(
            loaded.requests@[i],
        ) == session,
        max_requests is Some ==> loaded.requests@.len() <= max_requests->0,
        0 <= i < sorted.len() && session_of(sorted[i]) == session && (max_requests is None || loaded.requests@.len()
            < max_requests->0) ==> exists|k: int|
            0 <= k < loaded.requests@.len() && (#[trigger] loaded.requests@[k]).request.source_request_id
                == sorted[i].request.source_request_id && loaded.requests@[k].start_ms == sorted[i].start_ms,
{
    let wanted = |entry: RequestEntry| session_of(entry) == session;
    let kept = sorted.filter(wanted);
    broadcast use vstd::seq_lib::group_filter_ensures;

    let few = limited(kept, max_requests);
    if 0 <= i < loaded.requests@.len() {
        assert(few[i] == kept[i]);
        assert(kept.contains(kept[i]));
    }
    if 0 <= i < sorted.len() && session_of(sorted[i]) == session && (max_requests is None || loaded.requests@.len()
        < max_requests->0) {
        assert(wanted(sorted[i]));
        assert(kept.contains(sorted[i]));
        let k = kept.index_of(sorted[i]);
        assert(few == kept);
        assert(loaded.requests@[k].request.source_request_id == sorted[i].request.source_request_id);
    }
}

/// The tools that are loaded are those of the sessions that are.
pub proof fn law_loading_keeps_the_tools_of_its_sessions(
    loaded: LoadedTrace,
    sorted: Seq<RequestEntry>,
    tools: Seq<ToolEntry>,
    source: Seq<u8>,
    max_requests: Option<usize>,
    session_id: Option<Seq<char>>,
    k: int,
)
    requires
        is_loaded(loaded, sorted, tools, source, max_requests, session_id),
    ensures
        0 <= k < loaded.tools@.len() ==> tools.contains(loaded.tools@[k]) && exists|i: int|
            0 <= i < loaded.requests@.len() && (#[trigger] loaded.requests@[i]).request.agent_context->0.session_id@
                == loaded.tools@[k].session_id@,
        0 <= k < tools.len() && (exists|i: int|
            0 <= i < loaded.requests@.len() && (#[trigger] loaded.requests@[i]).request.agent_context->0.session_id@
                == tools[k].session_id@) ==> loaded.tools@.contains(tools[k]),
{
    broadcast use vstd::seq_lib::group_filter_ensures;

    let sessions = session_set(loaded.requests@);
    let listed = Seq::new(loaded.requests@.len(), |i: int| session_of(loaded.requests@[i]));
    let wanted = |tool: ToolEntry| session_set(loaded.requests@).contains(tool.session_id@);
    if 0 <= k < loaded.tools@.len() {
        let tool = loaded.tools@[k];
        assert(tools.filter(wanted).contains(tool));
        tools.lemma_filter_contains_rev(wanted, tool);
        assert(wanted(tool));
        let i = listed.index_of(tool.session_id@);
        assert(loaded.requests@[i].request.agent_context->0.session_id@ == tool.session_id@);
    }
    if 0 <= k < tools.len() && (exists|i: int|
        0 <= i < loaded.requests@.len() && (#[trigger] loaded.requests@[i]).request.agent_context->0.session_id@
            == tools[k].session_id@) {
        let i = choose|i: int|
            0 <= i < loaded.requests@.len() && (#[trigger] loaded.requests@[i]).request.agent_context->0.session_id@
                == tools[k].session_id@;
        assert(listed[i] == tools[k].session_id@);
        assert(wanted(tools[k]));
    }
}

proof fn lemma_token_totals(requests: Seq<RequestEntry>)
    requires
        token_totals(requests) is Ok,
    ensures
        token_totals(requests)->Ok_0 == (
            added_up(requests.len(), |i: int| requests[i].request.input_tokens as nat),
            added_up(requests.len(), |i: int| requests[i].request.output_tokens as nat),
        ),
    decreases requests.len(),
{
    if requests.len() > 0 {
        let rest = requests.drop_last();
        lemma_token_totals(rest);
        lemma_added_up_same(
            rest.len(),
            |i: int| rest[i].request.input_tokens as nat,
            |i: int| requests[i].request.input_tokens as nat,
        );
        lemma_added_up_same(
            rest.len(),
            |i: int| rest[i].request.output_tokens as nat,
            |i: int| requests[i].request.output_tokens as nat,
        );
    }
}

/// Request `i` has the hash `h` in its input.
pub open spec fn shows_hash(hashes: Seq<u64>, h: u64) -> bool {
    exists|k: int| 0 <= k < hashes.len() && #[trigger] hashes[k] == h
}

proof fn lemma_hash_set(requests: Seq<RequestEntry>, h: u64)
    ensures
        hash_set(requests).contains(h) <==> exists|i: int|
            0 <= i < requests.len() && shows_hash((#[trigger] requests[i]).request.input_sequence_hashes@, h),
    decreases requests.len(),
{
    if requests.len() > 0 {
        let rest = requests.drop_last();
        lemma_hash_set(rest, h);
        let last = requests.last().request.input_sequence_hashes@;
        if last.to_set().contains(h) {
            let k = last.index_of(h);
            assert(last[k] == h);
            assert(shows_hash(requests[requests.len() - 1].request.input_sequence_hashes@, h));
        }
        if exists|i: int|
            0 <= i < requests.len() && shows_hash((#[trigger] requests[i]).request.input_sequence_hashes@, h) {
            let i = choose|i: int|
                0 <= i < requests.len() && shows_hash((#[trigger] requests[i]).request.input_sequence_hashes@, h);
            if i < rest.len() {
                assert(rest[i] == requests[i]);
            } else {
                let k = choose|k: int| 0 <= k < last.len() && #[trigger] last[k] == h;
                assert(last.contains(h));
            }
        }
        if exists|i: int| 0 <= i < rest.len() && shows_hash((#[trigger] rest[i]).request.input_sequence_hashes@, h) {
            let i = choose|i: int|
                0 <= i < rest.len() && shows_hash((#[trigger] rest[i]).request.input_sequence_hashes@, h);
            assert(rest[i] == requests[i]);
        }
    }
}

/// The manifest of a trace adds up its tokens, counts its requests, its sessions and its distinct
/// hashes, spans it from its first to its last arrival, and gives the one block size that it has.
pub proof fn law_manifests_describe_the_requests(
    manifest: TraceManifest,
    requests: Seq<RequestEntry>,
    source: Seq<u8>,
    sessions: Set<Seq<char>>,
    hashes: Set<u64>,
)
    requires
        manifest_failure(requests) is None,
        is_manifest(manifest, requests, source),
        forall|s: Seq<char>| #[trigger]
            sessions.contains(s) <==> exists|i: int|
                0 <= i < requests.len() && (#[trigger] requests[i]).request.agent_context->0.session_id@ == s,
        forall|h: u64| #[trigger]
            hashes.contains(h) <==> exists|i: int|
                0 <= i < requests.len() && shows_hash((#[trigger] requests[i]).request.input_sequence_hashes@, h),
    ensures
        requests.len() > 0,
        manifest.request_count == requests.len(),
        manifest.session_count == sessions.len(),
        manifest.distinct_sequence_hashes == hashes.len(),
        manifest.input_tokens == added_up(requests.len(), |i: int| requests[i].request.input_tokens as nat),
        manifest.output_tokens == added_up(requests.len(), |i: int| requests[i].request.output_tokens as nat),
        manifest.first_request_received_ms == requests[0].request.request_received_ms,
        manifest.last_request_received_ms == requests[requests.len() - 1].request.request_received_ms,
        requests[0].request.request_received_ms <= requests[requests.len() - 1].request.request_received_ms
            ==> manifest.first_request_received_ms + manifest.duration_ms == manifest.last_request_received_ms,
        forall|i: int|
            0 <= i < requests.len() ==> (#[trigger] requests[i]).request.trace_block_size == manifest.trace_block_size
                && requests[i].request.agent_context is Some,
{
    let listed = Seq::new(requests.len(), |i: int| session_of(requests[i]));
    lemma_token_totals(requests);
    lemma_contexts(requests);
    assert forall|s: Seq<char>| session_set(requests).contains(s) <==> #[trigger] sessions.contains(s) by {
        if session_set(requests).contains(s) {
            let i = listed.index_of(s);
            assert(requests[i].request.agent_context->0.session_id@ == s);
        }
        if sessions.contains(s) {
            let i = choose|i: int|
                0 <= i < requests.len() && (#[trigger] requests[i]).request.agent_context->0.session_id@ == s;
            assert(listed[i] == s);
        }
    }
    assert(session_set(requests) =~= sessions);
    assert forall|h: u64| hash_set(requests).contains(h) <==> #[trigger] hashes.contains(h) by {
        lemma_hash_set(requests, h);
    }
    assert(hash_set(requests) =~= hashes);
    let sizes = Seq::new(requests.len(), |i: int| requests[i].request.trace_block_size);
    assert forall|i: int| 0 <= i < requests.len() implies (#[trigger] requests[i]).request.trace_block_size
        == manifest.trace_block_size by {
        assert(sizes[i] == requests[i].request.trace_block_size);
        assert(sizes[0] == requests[0].request.trace_block_size);
        assert(block_sizes(requests).contains(sizes[i]));
        assert(block_sizes(requests).contains(sizes[0]));
        lemma_one_element(sizes, sizes[i], sizes[0]);
    }
}

proof fn lemma_one_element(sizes: Seq<usize>, a: usize, b: usize)
    requires
        sizes.to_set().len() == 1,
        sizes.contains(a),
        sizes.contains(b),
    ensures
        a == b,
{
    broadcast use vstd::seq_lib::seq_to_set_is_finite;
    broadcast use vstd::set::group_set_axioms;

    let rest = sizes.to_set().remove(a);
    assert(rest.len() == 0);
    if a != b {
        assert(rest.contains(b));
        assert(rest.remove(b).len() + 1 == rest.len());
    }
}

proof fn lemma_contexts(requests: Seq<RequestEntry>)
    requires
        token_totals(requests) is Ok,
    ensures
        forall|i: int| 0 <= i < requests.len() ==> (#[trigger] requests[i]).request.agent_context is Some,
    decreases requests.len(),
{
    if requests.len() > 0 {
        let rest = requests.drop_last();
        lemma_contexts(rest);
        assert forall|i: int| 0 <= i < requests.len() implies (#[trigger] requests[i]).request.agent_context is Some by {
            if i < rest.len() {
                assert(rest[i] == requests[i]);
            }
        }
    }
}

// ---------------------------------------------------------------------------------------------
// Flat selections
// ---------------------------------------------------------------------------------------------

/// A flat request is numbered as it is told and otherwise says what its record does; records of other
/// events add nothing, and records of another schema are refused.
pub proof fn law_flat_records_add_requests(record: TraceRecord, ordinal: usize)
    ensures
        record.schema@ != "dynamo.request.trace.v1"@ ==> record_effect(record, ordinal) is Err,
        record.schema@ == "dynamo.request.trace.v1"@ && record.event_type@ != "request_end"@ ==> record_effect(
            record,
            ordinal,
        ) == Ok::<Option<TraceRequest>, LineError>(None),
        record.schema@ == "dynamo.request.trace.v1"@ && record.event_type@ == "request_end"@ ==> {
            &&& (record_effect(record, ordinal) is Ok <==> request_entry(record) is Ok)
            &&& request_entry(record) is Ok ==> {
                let request = record_effect(record, ordinal)->Ok_0->0;
                let entry = request_entry(record)->Ok_0;
                &&& record_effect(record, ordinal)->Ok_0 is Some
                &&& request.ordinal == ordinal
                &&& request.source_request_id == entry.request.source_request_id
                &&& request.input_tokens == entry.request.input_tokens
                &&& request.output_tokens == entry.request.output_tokens
                &&& request.request_received_ms == entry.request.request_received_ms
                &&& request.trace_block_size == entry.request.trace_block_size
                &&& request.input_sequence_hashes == entry.request.input_sequence_hashes
                &&& request.agent_context == entry.request.agent_context
            }
        },
{
}

/// Requests of a flat selection are in order of arrival, then of their place in the trace.
pub proof fn law_flat_requests_are_in_order(sorted: Seq<TraceRequest>, i: int, j: int)
    requires
        is_sorted(sorted),
        0 <= i < j < sorted.len(),
    ensures
        sorted[i].request_received_ms <= sorted[j].request_received_ms,
        sorted[i].request_received_ms == sorted[j].request_received_ms ==> sorted[i].ordinal <= sorted[j].ordinal,
{
    assert(sorted[i].ranks_before(sorted[j]));
}

/// A request that names a session.
pub open spec fn names_session(request: TraceRequest, session: Seq<char>) -> bool {
    request.agent_context is Some && request.agent_context->0.session_id@ == session
}

/// The requests of one session are all that name it, in order; without one they are all there are.
pub proof fn law_one_session_is_chosen(requests: Seq<TraceRequest>, session: Seq<char>, i: int)
    ensures
        chosen(requests, None) == requests,
        chosen(requests, Some(session)).len() == how_many(
            requests.len(),
            |k: int| names_session(requests[k], session),
        ),
        0 <= i < chosen(requests, Some(session)).len() ==> names_session(chosen(requests, Some(session))[i], session),
        0 <= i < requests.len() && names_session(requests[i], session) ==> chosen(requests, Some(session))[how_many(
            i as nat,
            |k: int| names_session(requests[k], session),
        ) as int] == requests[i] && how_many(i as nat, |k: int| names_session(requests[k], session)) < chosen(
            requests,
            Some(session),
        ).len(),
    decreases requests.len(),
{
    if requests.len() > 0 {
        let rest = requests.drop_last();
        let property = |k: int| names_session(requests[k], session);
        let shorter = |k: int| names_session(rest[k], session);
        law_one_session_is_chosen(rest, session, i);
        lemma_how_many_same(rest.len(), shorter, property);
        if 0 <= i < rest.len() {
            lemma_how_many_same(i as nat, shorter, property);
        }
    }
}

proof fn lemma_how_many_same(n: nat, a: spec_fn(int) -> bool, b: spec_fn(int) -> bool)
    requires
        forall|i: int| 0 <= i < n ==> #[trigger] a(i) == b(i),
    ensures
        how_many(n, a) == how_many(n, b),
    decreases n,
{
    if n > 0 {
        lemma_how_many_same((n - 1) as nat, a, b);
        assert(a(n - 1) == b(n - 1));
    }
}

/// A selection has as many requests as are wanted, or all of them, and each is numbered by its place.
pub proof fn law_selections_are_cut_and_numbered(requests: Seq<TraceRequest>, limit: Option<usize>, i: int)
    requires
        requests.len() <= usize::MAX,
    ensures
        ({
            let selected = renumbered(capped(requests, limit));
            &&& limit is None || requests.len() <= limit->0 ==> selected.len() == requests.len()
            &&& limit is Some && limit->0 <= requests.len() ==> selected.len() == limit->0
            &&& 0 <= i < selected.len() ==> {
                &&& selected[i].ordinal == i
                &&& selected[i].source_request_id == requests[i].source_request_id
                &&& selected[i].input_tokens == requests[i].input_tokens
                &&& selected[i].output_tokens == requests[i].output_tokens
                &&& selected[i].request_received_ms == requests[i].request_received_ms
                &&& selected[i].agent_context == requests[i].agent_context
                &&& selected[i].input_sequence_hashes == requests[i].input_sequence_hashes
                &&& selected[i].trace_block_size == requests[i].trace_block_size
            }
        }),
{
}

/// A selection holds no identifier twice, and its tokens add up within a word.
pub proof fn law_selections_hold_no_request_twice(requests: Seq<TraceRequest>, n: nat, i: int, j: int)
    requires
        selection_failure(requests, n) is None,
        n <= requests.len(),
        0 <= i < j < n,
    ensures
        requests[i].source_request_id@ != requests[j].source_request_id@,
    decreases n,
{
    if j < n - 1 {
        law_selections_hold_no_request_twice(requests, (n - 1) as nat, i, j);
    } else {
        let taken = requests.take(n - 1);
        let ids = Seq::new(taken.len(), |k: int| taken[k].source_request_id@);
        assert(ids[i] == requests[i].source_request_id@);
        assert(id_set(taken).contains(ids[i]));
    }
}

proof fn lemma_sums(requests: Seq<TraceRequest>)
    ensures
        sums_of(requests) == (
            added_up(requests.len(), |i: int| requests[i].input_tokens as nat),
            added_up(requests.len(), |i: int| requests[i].output_tokens as nat),
        ),
        contexts_in(requests) == how_many(requests.len(), |i: int| requests[i].agent_context is Some),
    decreases requests.len(),
{
    if requests.len() > 0 {
        let rest = requests.drop_last();
        lemma_sums(rest);
        lemma_added_up_same(
            rest.len(),
            |i: int| rest[i].input_tokens as nat,
            |i: int| requests[i].input_tokens as nat,
        );
        lemma_added_up_same(
            rest.len(),
            |i: int| rest[i].output_tokens as nat,
            |i: int| requests[i].output_tokens as nat,
        );
        lemma_how_many_same(
            rest.len(),
            |i: int| rest[i].agent_context is Some,
            |i: int| requests[i].agent_context is Some,
        );
    }
}

proof fn lemma_sessions(requests: Seq<TraceRequest>, s: Seq<char>)
    ensures
        sessions_of(requests).contains(s) <==> exists|i: int|
            0 <= i < requests.len() && names_session(#[trigger] requests[i], s),
    decreases requests.len(),
{
    if requests.len() > 0 {
        let rest = requests.drop_last();
        lemma_sessions(rest, s);
        if names_session(requests[requests.len() - 1], s) {
            assert(names_session(requests[requests.len() - 1], s));
        }
        if exists|i: int| 0 <= i < rest.len() && names_session(#[trigger] rest[i], s) {
            let i = choose|i: int| 0 <= i < rest.len() && names_session(#[trigger] rest[i], s);
            assert(names_session(requests[i], s));
        }
        if exists|i: int| 0 <= i < requests.len() && names_session(#[trigger] requests[i], s) {
            let i = choose|i: int| 0 <= i < requests.len() && names_session(#[trigger] requests[i], s);
            if i < rest.len() {
                assert(names_session(rest[i], s));
            }
        }
    }
}

proof fn lemma_request_hashes(requests: Seq<TraceRequest>, h: u64)
    ensures
        request_hashes(requests).contains(h) <==> exists|i: int|
            0 <= i < requests.len() && shows_hash((#[trigger] requests[i]).input_sequence_hashes@, h),
    decreases requests.len(),
{
    if requests.len() > 0 {
        let rest = requests.drop_last();
        lemma_request_hashes(rest, h);
        let last = requests.last().input_sequence_hashes@;
        if last.to_set().contains(h) {
            let k = last.index_of(h);
            assert(last[k] == h);
            assert(shows_hash(requests[requests.len() - 1].input_sequence_hashes@, h));
        }
        if exists|i: int| 0 <= i < requests.len() && shows_hash((#[trigger] requests[i]).input_sequence_hashes@, h) {
            let i = choose|i: int|
                0 <= i < requests.len() && shows_hash((#[trigger] requests[i]).input_sequence_hashes@, h);
            if i < rest.len() {
                assert(rest[i] == requests[i]);
            } else {
                let k = choose|k: int| 0 <= k < last.len() && #[trigger] last[k] == h;
                assert(last.contains(h));
            }
        }
        if exists|i: int| 0 <= i < rest.len() && shows_hash((#[trigger] rest[i]).input_sequence_hashes@, h) {
            let i = choose|i: int| 0 <= i < rest.len() && shows_hash((#[trigger] rest[i]).input_sequence_hashes@, h);
            assert(rest[i] == requests[i]);
        }
    }
}

/// The totals of a selection add up its tokens, count its requests, those with a context, its sessions
/// and its distinct hashes, span it from its first to its last arrival, and give its one block size.
pub proof fn law_totals_describe_the_selection(
    manifest: TraceManifest,
    requests: Seq<TraceRequest>,
    digest: Seq<u8>,
    stored: bool,
    sessions: Set<Seq<char>>,
    hashes: Set<u64>,
)
    requires
        totals_failure(requests, stored) is None,
        is_totals(manifest, requests, digest),
        forall|s: Seq<char>| #[trigger]
            sessions.contains(s) <==> exists|i: int|
                0 <= i < requests.len() && names_session(#[trigger] requests[i], s),
        forall|h: u64| #[trigger]
            hashes.contains(h) <==> exists|i: int|
                0 <= i < requests.len() && shows_hash((#[trigger] requests[i]).input_sequence_hashes@, h),
    ensures
        requests.len() > 0,
        manifest.request_count == requests.len(),
        manifest.session_count == sessions.len(),
        manifest.requests_with_agent_context == how_many(
            requests.len(),
            |i: int| requests[i].agent_context is Some,
        ),
        manifest.distinct_sequence_hashes == hashes.len(),
        manifest.input_tokens == added_up(requests.len(), |i: int| requests[i].input_tokens as nat),
        manifest.output_tokens == added_up(requests.len(), |i: int| requests[i].output_tokens as nat),
        manifest.first_request_received_ms == requests[0].request_received_ms,
        manifest.last_request_received_ms == requests[requests.len() - 1].request_received_ms,
        requests[0].request_received_ms <= requests[requests.len() - 1].request_received_ms
            ==> manifest.first_request_received_ms + manifest.duration_ms == manifest.last_request_received_ms,
        forall|i: int|
            0 <= i < requests.len() ==> (#[trigger] requests[i]).trace_block_size == manifest.trace_block_size,
{
    lemma_sums(requests);
    assert forall|s: Seq<char>| sessions_of(requests).contains(s) <==> #[trigger] sessions.contains(s) by {
        lemma_sessions(requests, s);
    }
    assert(sessions_of(requests) =~= sessions);
    assert forall|h: u64| request_hashes(requests).contains(h) <==> #[trigger] hashes.contains(h) by {
        lemma_request_hashes(requests, h);
    }
    assert(request_hashes(requests) =~= hashes);
    let sizes = Seq::new(requests.len(), |i: int| requests[i].trace_block_size);
    assert forall|i: int| 0 <= i < requests.len() implies (#[trigger] requests[i]).trace_block_size
        == manifest.trace_block_size by {
        assert(sizes[i] == requests[i].trace_block_size);
        assert(sizes[0] == requests[0].trace_block_size);
        lemma_one_element(sizes, sizes[i], sizes[0]);
    }
}

/// A line that wraps its record is read as what it wraps: its event, or else its record; any other line
/// is its own record.
pub proof fn law_wrapped_records_are_taken_out(line: crate::json::JsonView)
    ensures
        line.field("event"@) is Some ==> record_of(line) == line.field("event"@)->0,
        line.field("event"@) is None && line.field("record"@) is Some ==> record_of(line) == line.field("record"@)->0,
        line.field("event"@) is None && line.field("record"@) is None ==> record_of(line) == line,
{
}

} // verus!
