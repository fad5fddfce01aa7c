//! Traces: records, loading, lowering and storage.

use agent_loadgen::cli::count_roots_and_edges;
use agent_loadgen::contracts::{AgentContext, TraceManifest, TraceRequest};
use agent_loadgen::trace::agentic::{
    load_agentic_trace, lower, validate_dependency_dag, AgenticTrace, LowerError, TraceError,
};
use agent_loadgen::trace::dag::{acyclic, first_stray, push_unique};
use agent_loadgen::trace::flat::{
    compile_flat, is_of_session, read_record, record_text, FlatLoader, FlatTrace,
};
use agent_loadgen::trace::index::{total_requests, SelectionError, SelectionIndex};
use agent_loadgen::trace::load::{make_manifest, LineError, LoadError, LoadedTrace, TraceLoader};
use agent_loadgen::trace::record::{
    compile_request, parse_trace_record, ClaudeToolReplayMetrics, JsonLineEnvelope, RecordError, ReplayMetrics,
    RequestEntry, RequestMetrics, ToolEntry, TraceEventEnvelope, TraceRecord, TraceRecordEnvelope, TraceRecordFields,
};
use agent_loadgen::trace::spool::{
    check_store, check_stored, storage_manifest, u64_to_i64, usize_to_i64, SpoolSelection, StoreRangeError,
    StoredTraceReader,
};
use serde_json::Value;

const SCHEMA: &str = "dynamo.request.trace.v1";

fn text(value: &Value, name: &str) -> Option<String> {
    value.get(name).and_then(Value::as_str).map(str::to_string)
}

fn context(value: &Value) -> Option<AgentContext> {
    value.get("agent_context").map(|context| AgentContext {
        session_id: text(context, "session_id").unwrap(),
        parent_session_id: text(context, "parent_session_id"),
        session_final: None,
        compaction: None,
        input_trigger: None,
    })
}

fn metrics(request: &Value) -> RequestMetrics {
    RequestMetrics {
        request_id: text(request, "request_id").unwrap(),
        x_request_id: text(request, "x_request_id"),
        model: text(request, "model"),
        input_tokens: request.get("input_tokens").and_then(Value::as_u64),
        output_tokens: request.get("output_tokens").and_then(Value::as_u64),
        request_received_ms: request.get("request_received_ms").and_then(Value::as_u64),
        total_time_ms: request.get("total_time_ms").and_then(Value::as_u64),
        replay: request.get("replay").map(|replay| ReplayMetrics {
            trace_block_size: replay["trace_block_size"].as_u64().unwrap() as usize,
            input_length: replay["input_length"].as_u64().unwrap() as usize,
            input_sequence_hashes: replay["input_sequence_hashes"]
                .as_array()
                .unwrap()
                .iter()
                .map(|hash| hash.as_u64().unwrap())
                .collect(),
        }),
    }
}

fn fields(value: &Value) -> TraceRecordFields {
    TraceRecordFields {
        schema: text(value, "schema"),
        event_type: text(value, "event_type"),
        event_time_unix_ms: value.get("event_time_unix_ms").and_then(Value::as_u64),
        agent_context: context(value),
        request: value.get("request").map(metrics),
        tool: None,
    }
}

fn line(text: &str) -> JsonLineEnvelope {
    let value: Value = serde_json::from_str(text).unwrap();
    if !value.is_object() {
        return JsonLineEnvelope::Other;
    }
    JsonLineEnvelope::Object(TraceRecordEnvelope {
        record: fields(&value),
        event: value.get("event").map(|event| {
            if event.is_object() {
                TraceEventEnvelope::Object(fields(event))
            } else {
                TraceEventEnvelope::Other
            }
        }),
    })
}

fn record(text: &str) -> TraceRecord {
    let value: Value = serde_json::from_str(text).unwrap();
    let value = value.get("event").unwrap_or(&value);
    TraceRecord {
        schema: text_or_empty(value, "schema"),
        event_type: text_or_empty(value, "event_type"),
        event_time_unix_ms: 0,
        agent_context: context(value),
        request: value.get("request").map(metrics),
        tool: None,
    }
}

fn text_or_empty(value: &Value, name: &str) -> String {
    text(value, name).unwrap_or_default()
}

fn request_record(request_id: &str, session_id: &str, received_ms: u64, completed_ms: u64, hashes: &[u64]) -> String {
    format!(
        "{{\"schema\":\"{SCHEMA}\",\"event_type\":\"request_end\",\"event_time_unix_ms\":{completed_ms},\"agent_context\":{{\"session_id\":\"{session_id}\"}},\"request\":{{\"request_id\":\"{request_id}\",\"input_tokens\":{length},\"output_tokens\":2,\"request_received_ms\":{received_ms},\"replay\":{{\"trace_block_size\":2,\"input_length\":{length},\"input_sequence_hashes\":{hashes:?}}}}}}}",
        length = hashes.len() * 2
    )
}

fn without_context(record: &str) -> String {
    record.replace("\"agent_context\":{\"session_id\":\"thread-1\"},", "")
}

fn read_lines(lines: &[String]) -> Result<TraceLoader, String> {
    let mut loader = TraceLoader::new(1).map_err(|error| error.message())?;
    for text in lines {
        loader.push_line(text, line(text)).map_err(|error| error.message())?;
    }
    Ok(loader)
}

fn load_lines(lines: &[String], max_requests: Option<usize>, session: Option<&str>) -> Result<LoadedTrace, String> {
    read_lines(lines)?.finish(max_requests, session).map_err(|error| error.message())
}

fn load_agentic(lines: &[String], max_requests: Option<usize>) -> Result<AgenticTrace, String> {
    load_agentic_trace(read_lines(lines)?, max_requests, None).map_err(|error| error.message())
}

#[test]
fn loading_and_lowering_fail_apart() {
    let lines = [request_record("r1", "thread-1", 1_000, 1_100, &[11])];
    let error = load_agentic_trace(read_lines(&lines).unwrap(), None, Some("thread-2")).unwrap_err();
    assert!(matches!(&error, TraceError::Load(LoadError::NoSession { session_id }) if session_id == "thread-2"));
    let error = load_agentic_trace(read_lines(&[without_context(&lines[0])]).unwrap(), None, None).unwrap_err();
    assert_eq!(error.message(), "agent-loadgen requires agent_context on every request");
    let child = |id: &str, parent: &str, at: u64| {
        request_record(id, "thread-1", at, at + 100, &[11]).replace(
            "{\"session_id\":\"thread-1\"}",
            &format!("{{\"session_id\":\"thread-1\",\"parent_session_id\":\"{parent}\"}}"),
        )
    };
    let lines = [child("r1", "one", 1_000), child("r2", "two", 2_000)];
    let error = load_agentic_trace(read_lines(&lines).unwrap(), None, None).unwrap_err();
    assert!(matches!(error, TraceError::Lower(LowerError::ConflictingParents { .. })));
}

#[test]
fn loads_and_lowers_agent_requests() {
    let trace = load_agentic(
        &[
            request_record("r1", "thread-1", 1_000, 1_100, &[11]),
            request_record("r2", "thread-1", 1_300, 1_400, &[11, 22]),
        ],
        None,
    )
    .unwrap();
    assert_eq!(trace.turns.len(), 2);
    assert!(trace.turns[0].dependencies.is_empty());
    assert_eq!(trace.turns[0].root_arrival_ms, Some(0));
    assert_eq!(trace.turns[1].dependencies, vec![0]);
    assert_eq!(trace.turns[1].delay_after_dependencies_ms, 200);
    assert_eq!(count_roots_and_edges(&trace.turns), (1, 1));
}

#[test]
fn rejects_context_free_requests() {
    let record = without_context(&request_record("r1", "thread-1", 1_000, 1_100, &[11]));
    let error = load_agentic(&[record], None).unwrap_err();
    assert!(error.contains("requires agent_context"));
}

#[test]
fn rejects_mixed_agent_and_context_free_requests() {
    let error = load_agentic(
        &[
            request_record("r1", "thread-1", 1_000, 1_100, &[11]),
            without_context(&request_record("r2", "thread-1", 1_200, 1_300, &[22])),
        ],
        None,
    )
    .unwrap_err();
    assert!(error.contains("requires agent_context"));
}

#[test]
fn rejects_duplicate_request_ids_during_loading() {
    let error = load_agentic(
        &[
            request_record("duplicate", "thread-1", 1_000, 1_100, &[11]),
            request_record("duplicate", "thread-1", 1_200, 1_300, &[22]),
        ],
        None,
    )
    .unwrap_err();
    assert!(error.contains("duplicate request_id duplicate"));
}

#[test]
fn loads_wrapped_records_and_sorts_before_limit() {
    let late = request_record("late", "thread-1", 1_200, 1_300, &[22]);
    let early = request_record("early", "thread-1", 1_000, 1_100, &[11]);
    let trace = load_agentic(
        &[
            format!("{{\"timestamp\":1,\"event\":{late}}}"),
            format!("{{\"timestamp\":2,\"event\":{early}}}"),
        ],
        Some(1),
    )
    .unwrap();
    assert_eq!(trace.turns.len(), 1);
    assert_eq!(trace.turns[0].request.source_request_id, "early");
}

#[test]
fn parses_direct_and_wrapped_records_once_while_skipping_payloads() {
    let direct = request_record("direct", "thread-1", 1_000, 1_100, &[11]);
    let direct = parse_trace_record(line(&direct)).unwrap().unwrap();
    assert_eq!(direct.request.unwrap().request_id, "direct");

    let wrapped = format!(
        "{{\"timestamp\":1,\"event\":{}}}",
        request_record("wrapped", "thread-1", 1_000, 1_100, &[11])
    );
    let wrapped = parse_trace_record(line(&wrapped)).unwrap().unwrap();
    assert_eq!(wrapped.request.unwrap().request_id, "wrapped");

    let payload = "{\"event_type\":\"request_payload\",\"payload\":[1,2]}";
    assert!(parse_trace_record(line(payload)).unwrap().is_none());

    let malformed = "{\"event_type\":\"request_end\"}";
    assert!(parse_trace_record(line(malformed)).is_err());
}

fn entry(request_id: &str, session_id: &str, parent: Option<&str>, start_ms: i64, end_ms: i64) -> RequestEntry {
    RequestEntry {
        start_ms,
        end_ms,
        request: TraceRequest {
            ordinal: 0,
            source_request_id: request_id.to_string(),
            source_x_request_id: None,
            source_model: None,
            input_tokens: 2,
            output_tokens: 1,
            request_received_ms: start_ms as u64,
            trace_block_size: 2,
            input_sequence_hashes: vec![11],
            agent_context: Some(AgentContext {
                session_id: session_id.to_string(),
                parent_session_id: parent.map(str::to_string),
                session_final: None,
                compaction: None,
                input_trigger: None,
            }),
        },
    }
}

fn manifest(count: usize) -> TraceManifest {
    TraceManifest {
        request_count: count,
        session_count: count,
        requests_with_agent_context: count,
        first_request_received_ms: 1_000,
        last_request_received_ms: 1_000,
        duration_ms: 0,
        input_tokens: (count * 2) as u64,
        output_tokens: count as u64,
        distinct_sequence_hashes: 1,
        trace_block_size: 2,
        source_digest_sha256: "source".to_string(),
    }
}

fn agent_tool(source: &str, consumer: Option<&str>, child: Option<&str>, mode: &str) -> ToolEntry {
    ToolEntry {
        session_id: "root".to_string(),
        start_ms: 0,
        end_ms: 0,
        tool_call_id: "agent-call".to_string(),
        tool_class: "agent".to_string(),
        claude: Some(ClaudeToolReplayMetrics {
            source_request_id: source.to_string(),
            consumer_request_id: consumer.map(str::to_string),
            child_session_id: child.map(str::to_string),
            execution_mode: mode.to_string(),
        }),
        status: "ok".to_string(),
        duration_ms: 0,
        output_bytes: None,
        output_tokens: None,
        error_type: None,
    }
}

fn lowered(requests: Vec<RequestEntry>, tools: Vec<ToolEntry>) -> Result<AgenticTrace, LowerError> {
    let count = requests.len();
    lower(LoadedTrace { requests, tools, manifest: manifest(count) })
}

#[test]
fn infers_subagent_launch_and_join() {
    let trace = lowered(
        vec![
            entry("parent-1", "root", None, 1_000, 1_100),
            entry("child-1", "child", Some("root"), 1_200, 1_300),
            entry("parent-2", "root", None, 1_500, 1_600),
        ],
        Vec::new(),
    )
    .unwrap();

    assert_eq!(trace.turns[1].dependencies, vec![0]);
    assert_eq!(trace.turns[2].dependencies, vec![0, 1]);
    assert_eq!(trace.turns[2].delay_after_dependencies_ms, 200);
}

#[test]
fn rejects_conflicting_session_parents() {
    let error = lowered(
        vec![
            entry("child-1", "child", Some("root-a"), 1_000, 1_100),
            entry("child-2", "child", Some("root-b"), 1_200, 1_300),
        ],
        Vec::new(),
    )
    .unwrap_err();
    assert!(error.message().contains("conflicting parent_session_id"));
}

#[test]
fn explicit_background_metadata_preserves_spawn_and_late_join() {
    let trace = lowered(
        vec![
            entry("parent-1", "root", None, 1_000, 1_100),
            entry("child-1", "child", Some("root"), 1_200, 1_700),
            entry("parent-2", "root", None, 1_300, 1_400),
            entry("parent-3", "root", None, 1_850, 1_950),
        ],
        vec![agent_tool("parent-1", Some("parent-3"), Some("child"), "background")],
    )
    .unwrap();

    assert_eq!(trace.turns[1].dependencies, vec![0]);
    assert_eq!(trace.turns[2].dependencies, vec![0]);
    assert_eq!(trace.turns[3].dependencies, vec![2, 1]);
    assert_eq!(trace.turns[3].delay_after_dependencies_ms, 150);
}

fn family() -> Vec<RequestEntry> {
    vec![
        entry("parent-1", "root", None, 1_000, 1_100),
        entry("child-1", "child", Some("root"), 1_200, 1_300),
        entry("parent-2", "root", None, 1_500, 1_600),
        entry("other-1", "other", None, 1_000, 1_050),
    ]
}

#[test]
fn lowering_refuses_what_it_cannot_place() {
    let message = |requests: Vec<RequestEntry>, tools: Vec<ToolEntry>| lowered(requests, tools).unwrap_err().message();
    assert_eq!(message(Vec::new(), Vec::new()), "no request records to lower");
    assert_eq!(
        message(vec![entry("a", "s", None, 1, 2), entry("a", "s", None, 3, 4)], Vec::new()),
        "duplicate request_id a"
    );
    assert_eq!(
        message(family(), vec![agent_tool("parent-1", None, Some("child"), "sideways")]),
        "tool agent-call has unsupported execution_mode sideways"
    );
    assert_eq!(
        message(
            family(),
            vec![
                agent_tool("parent-1", None, Some("child"), "background"),
                agent_tool("parent-1", None, Some("child"), "background"),
            ]
        ),
        "multiple tool events reference child session child"
    );
    let unknown = message(family(), vec![agent_tool("nowhere", None, Some("child"), "background")]);
    assert!(unknown.contains("nowhere"));
    let foreign = message(family(), vec![agent_tool("other-1", None, Some("child"), "background")]);
    assert!(foreign.contains("other-1"));
    let consumer = message(family(), vec![agent_tool("parent-1", Some("other-1"), Some("child"), "background")]);
    assert!(consumer.contains("other-1"));
    let cycle = message(
        vec![
            entry("parent-1", "root", None, 1_000, 1_100),
            entry("child-1", "child", Some("root"), 1_200, 1_300),
        ],
        vec![agent_tool("parent-1", Some("parent-1"), Some("child"), "background")],
    );
    assert!(cycle.contains("cycle") || cycle.contains("cannot depend on itself"));
}

#[test]
fn a_session_waits_for_its_previous_request() {
    let trace = lowered(
        vec![
            entry("a", "s", None, 0, 10),
            entry("b", "t", None, 5, 15),
            entry("c", "s", None, 30, 40),
        ],
        Vec::new(),
    )
    .unwrap();
    assert_eq!(trace.turns[2].dependencies, vec![0]);
    assert_eq!(trace.turns[2].delay_after_dependencies_ms, 20);
    assert_eq!(trace.turns[1].root_arrival_ms, Some(5));
}

#[test]
fn overlapping_tools_count_once() {
    let tool = |session: &str, start_ms: i64, end_ms: i64| ToolEntry {
        session_id: session.to_string(),
        start_ms,
        end_ms,
        claude: None,
        ..agent_tool("a", None, None, "background")
    };
    let trace = lowered(
        vec![entry("a", "s", None, 0, 100), entry("b", "s", None, 200, 300)],
        vec![
            tool("s", 90, 120),
            tool("s", 110, 130),
            tool("s", 112, 115),
            tool("s", 150, 160),
            tool("s", 190, 260),
            tool("t", 130, 150),
        ],
    )
    .unwrap();
    assert_eq!(trace.turns[1].delay_after_dependencies_ms, 100);
    assert_eq!(trace.turns[1].tool_delay_ms, 30 + 10 + 10);
    assert_eq!(trace.turns[1].other_delay_ms, 50);
    assert_eq!(trace.turns[0].tool_delay_ms, 0);
    assert_eq!(trace.turns[0].other_delay_ms, 0);
}

#[test]
fn cycles_are_found() {
    assert!(acyclic(&vec![vec![], vec![0], vec![0, 1]]));
    assert!(acyclic(&vec![vec![], vec![0, 0], vec![1, 0, 1]]));
    assert!(!acyclic(&vec![vec![1], vec![0]]));
    assert!(!acyclic(&vec![vec![], vec![2]]));
    assert!(!acyclic(&vec![vec![0]]));
    assert_eq!(first_stray(&vec![vec![], vec![0, 7, 1], vec![2]]), Some((1, 1)));
    assert_eq!(first_stray(&vec![vec![1], vec![]]), None);
    let mut values = vec![3];
    push_unique(&mut values, 3);
    push_unique(&mut values, 4);
    assert_eq!(values, vec![3, 4]);
}

#[test]
fn dependencies_name_other_requests() {
    let lines = [
        request_record("r1", "thread-1", 1_000, 1_100, &[11]),
        request_record("r2", "thread-1", 2_000, 2_100, &[11]),
        request_record("r3", "thread-1", 3_000, 3_100, &[11]),
    ];
    let requests = load_lines(&lines, None, None).unwrap().requests;
    let refused = |dependencies: Vec<Vec<usize>>| {
        validate_dependency_dag(&requests, &dependencies).unwrap_err().message()
    };
    assert_eq!(refused(vec![vec![], vec![0, 3, 1], vec![2]]), "request r2 depends on unknown request index 3");
    assert_eq!(refused(vec![vec![], vec![0, 1, 3], vec![2]]), "request r2 cannot depend on itself");
    assert_eq!(refused(vec![vec![2], vec![0], vec![1]]), "agentic request dependencies contain a cycle");
    assert!(validate_dependency_dag(&requests, &vec![vec![2, 2], vec![0, 2, 0], vec![]]).is_ok());
}

// -- records ----------------------------------------------------------------------------------

fn flat_record(request_id: &str, session: Option<&str>, received_ms: u64, block: usize, length: usize, hashes: &[u64], output: u64) -> String {
    let context = match session {
        Some(session) => format!("\"agent_context\":{{\"session_id\":\"{session}\"}},"),
        None => String::new(),
    };
    format!(
        "{{\"schema\":\"{SCHEMA}\",\"event_type\":\"request_end\",{context}\"request\":{{\"request_id\":\"{request_id}\",\"output_tokens\":{output},\"request_received_ms\":{received_ms},\"replay\":{{\"trace_block_size\":{block},\"input_length\":{length},\"input_sequence_hashes\":{hashes:?}}}}}}}"
    )
}

fn load_flat(lines: &[String], max_requests: Option<usize>, session: Option<&str>) -> Result<FlatTrace, String> {
    let mut loader = FlatLoader::new(1).map_err(|error| error.message())?;
    for text in lines {
        loader.push_line(text, record(text)).map_err(|error| error.message())?;
    }
    loader.finish(max_requests, session).map_err(|error| error.message())
}

#[test]
fn loads_raw_and_wrapped_records() {
    let raw = format!(
        "{{\"schema\":\"{SCHEMA}\",\"event_type\":\"request_end\",\"event_time_unix_ms\":2000,\"agent_context\":{{\"session_id\":\"thread-1\"}},\"request\":{{\"request_id\":\"req-1\",\"input_tokens\":3,\"output_tokens\":2,\"request_received_ms\":1000,\"replay\":{{\"trace_block_size\":2,\"input_length\":3,\"input_sequence_hashes\":[11,22]}}}}}}"
    );
    let wrapped = format!(
        "{{\"timestamp\":1,\"event\":{{\"schema\":\"{SCHEMA}\",\"event_type\":\"request_end\",\"event_time_unix_ms\":2100,\"request\":{{\"request_id\":\"req-2\",\"output_tokens\":4,\"request_received_ms\":1025,\"replay\":{{\"trace_block_size\":2,\"input_length\":4,\"input_sequence_hashes\":[11,33]}}}}}}}}"
    );
    let trace = load_flat(&[raw, wrapped], None, None).unwrap();
    assert_eq!(trace.manifest.request_count, 2);
    assert_eq!(trace.manifest.duration_ms, 25);
    assert_eq!(trace.manifest.distinct_sequence_hashes, 3);
    assert_eq!(trace.requests[1].input_tokens, 4);
}

#[test]
fn stored_trace_orders_before_applying_limit() {
    let lines = [
        flat_record("late", Some("thread-1"), 1025, 16, 3, &[22], 2),
        flat_record("early", Some("thread-1"), 1000, 16, 3, &[11], 2),
    ];
    assert!(check_store(1, 2).is_ok());
    let mut rows = Vec::new();
    for text in &lines {
        let request = read_record(record(text), rows.len()).unwrap().unwrap();
        assert!(is_of_session(&request, "thread-1"));
        rows.push(request);
    }
    assert!(check_stored(rows.len() as u64, Some("thread-1")).is_ok());
    rows.sort_by_key(|request| (request.request_received_ms, request.ordinal));

    let mut selection = SpoolSelection::new(None, 2);
    let mut stored = Vec::new();
    let mut pending = rows.into_iter();
    while let Some(query) = selection.next_query() {
        let batch: Vec<TraceRequest> = pending.by_ref().take(query.limit).collect();
        let short = batch.len() < query.limit;
        for request in batch {
            stored.push(selection.take_row(request).unwrap());
        }
        if short {
            break;
        }
    }
    let manifest = selection.finish(b"digest").unwrap();
    assert_eq!(manifest.request_count, 2);
    assert_eq!(manifest.distinct_sequence_hashes, 2);
    assert_eq!(storage_manifest(1, 2).backend, "sqlite-spool-v1");
    let mut reader = StoredTraceReader::new(2);
    let mut stored = stored.into_iter();
    let mut ids = Vec::new();
    loop {
        match reader.next_buffered() {
            Some(request) => ids.push(request.source_request_id),
            None => {
                let (_, limit) = reader.query();
                let batch: Vec<TraceRequest> = stored.by_ref().take(limit).collect();
                if batch.is_empty() {
                    break;
                }
                reader.refill(batch);
            }
        }
    }
    assert_eq!(ids, vec!["early", "late"]);
}

#[test]
fn rejects_incomplete_hash_coverage() {
    let text = flat_record("req-1", None, 1000, 2, 3, &[11], 2);
    assert!(compile_flat(record(&text), 0).is_err());
}

#[test]
fn rejects_zero_output_requests() {
    let text = flat_record("zero-output", Some("thread-1"), 1000, 16, 3, &[11], 0);
    assert!(compile_flat(record(&text), 0).unwrap_err().message().contains("has zero output tokens"));
}

#[test]
fn each_missing_field_is_named() {
    let base = request_record("r", "thread-1", 1_000, 1_100, &[11]);
    let without = |part: &str| parse_trace_record(line(&base.replace(part, ""))).unwrap_err().message();
    assert_eq!(without(&format!("\"schema\":\"{SCHEMA}\",")), "trace record has no schema");
    assert_eq!(without("\"event_time_unix_ms\":1100,"), "trace record has no event_time_unix_ms");
    let compiled = |from: &str, to: &str| {
        compile_request(parse_trace_record(line(&base.replace(from, to))).unwrap().unwrap())
            .unwrap_err()
            .message()
    };
    assert_eq!(compiled("\"trace_block_size\":2", "\"trace_block_size\":0"), "trace_block_size must be greater than zero");
    assert_eq!(compiled("\"input_length\":2", "\"input_length\":0"), "input_length must be greater than zero");
    assert_eq!(compiled("[11]", "[11, 12]"), "request r has 2 replay hashes, expected 1");
    assert_eq!(
        compiled("\"input_tokens\":2", "\"input_tokens\":1"),
        "request r input_tokens does not match replay input_length"
    );
    assert_eq!(compiled("\"output_tokens\":2,", ""), "request has no output_tokens");
    assert_eq!(compiled("\"output_tokens\":2", "\"output_tokens\":4294967296"), "output_tokens does not fit u32");
    assert_eq!(compiled("\"output_tokens\":2", "\"output_tokens\":0"), "request r has zero output tokens");
    assert_eq!(compiled("\"request_received_ms\":1000,", ""), "request has no request_received_ms");
    assert_eq!(RecordError::NoEventType.message(), "trace record has no event_type");
    assert_eq!(RecordError::NoReplayMetrics.message(), "request_end has no replay metrics");
}

#[test]
fn lines_and_selections_are_refused_with_reason() {
    let good = request_record("r", "thread-1", 1_000, 1_100, &[11]);
    assert_eq!(
        load_lines(&[good.replace(SCHEMA, "v0")], None, None).unwrap_err(),
        "unsupported trace schema \"v0\""
    );
    assert_eq!(
        load_lines(&[good.replace("request_end", "other")], None, None).unwrap_err(),
        "request trace only supports request_end, request_payload, and tool_* events, got other"
    );
    assert_eq!(
        load_lines(&[good.replace("\"output_tokens\":2", "\"output_tokens\":0")], None, None).unwrap_err(),
        "invalid request_end record: request r has zero output tokens"
    );
    assert_eq!(TraceLoader::new(0).err().unwrap().message(), "at least one trace path is required");
    assert_eq!(
        load_lines(&[], None, None).unwrap_err(),
        "the trace contains no request_end records with replay metadata"
    );
    assert_eq!(
        load_lines(&[good.clone()], None, Some("no\"body")).unwrap_err(),
        "the trace contains no requests for session \"no\\\"body\""
    );
    assert_eq!(
        load_lines(&[good.clone()], Some(0), None).unwrap_err(),
        "the selected trace contains no requests"
    );
    let wide = request_record("w", "thread-1", 1_000, 1_100, &[11]).replace("\"trace_block_size\":2", "\"trace_block_size\":4");
    assert_eq!(
        load_lines(&[good, wide], None, None).unwrap_err(),
        "shape-strict replay requires one trace_block_size, found {2, 4}"
    );
    assert_eq!(LoadError::InputOverflow.message(), "input token count overflow");
    assert_eq!(
        LineError::DuplicateRequest { request_id: "x".to_string() }.message(),
        "duplicate request_id x"
    );
}

#[test]
fn manifests_total_their_requests() {
    let loaded = load_lines(
        &[
            request_record("a", "s", 1_000, 1_100, &[11, 22]),
            request_record("b", "t", 1_500, 1_600, &[11]),
        ],
        None,
        None,
    )
    .unwrap();
    assert_eq!(loaded.manifest.request_count, 2);
    assert_eq!(loaded.manifest.session_count, 2);
    assert_eq!(loaded.manifest.input_tokens, 6);
    assert_eq!(loaded.manifest.output_tokens, 4);
    assert_eq!(loaded.manifest.distinct_sequence_hashes, 2);
    assert_eq!(loaded.manifest.duration_ms, 500);
    assert_eq!(loaded.manifest.source_digest_sha256.len(), 64);
    let manifest = make_manifest(&loaded.requests, b"abc").unwrap();
    assert_eq!(
        manifest.source_digest_sha256,
        "ba7816bf8f01cfea414140de5dae2223b00361a396177a9cb410ff61f20015ad"
    );
}

fn flat(request_id: &str, input_tokens: usize, block: usize) -> TraceRequest {
    TraceRequest {
        ordinal: 0,
        source_request_id: request_id.to_string(),
        source_x_request_id: None,
        source_model: None,
        input_tokens,
        output_tokens: 1,
        request_received_ms: 5,
        trace_block_size: block,
        input_sequence_hashes: vec![1],
        agent_context: None,
    }
}

#[test]
fn selections_are_refused_with_reason() {
    assert_eq!(FlatLoader::new(0).err().unwrap().message(), "at least one trace path is required");
    assert_eq!(
        check_store(1, 0).unwrap_err().message(),
        "trace request batch size must be greater than zero"
    );
    assert_eq!(check_stored(0, None).unwrap_err().message(), "the trace contains no request_end records");
    assert_eq!(
        check_stored(0, Some("s")).unwrap_err().message(),
        "the trace contains no requests for session \"s\""
    );
    let mut index = SelectionIndex::new();
    index.add_request(&flat("a", 2, 2)).unwrap();
    assert_eq!(index.add_request(&flat("a", 2, 2)).unwrap_err().message(), "duplicate request_id a");
    let mut index = SelectionIndex::new();
    index.add_request(&flat("a", usize::MAX, 2)).unwrap();
    assert_eq!(index.add_request(&flat("b", 1, 2)).unwrap_err().message(), "input token count overflow");
    assert_eq!(
        total_requests(&vec![flat("a", 1, 4), flat("b", 1, 2)], b"").unwrap_err().message(),
        "shape-strict replay requires one trace_block_size, found {2, 4}"
    );
    assert_eq!(total_requests(&Vec::new(), b"").unwrap_err().message(), "trace has no requests");
    let mut selection = SpoolSelection::new(None, 4);
    selection.take_row(flat("a", 1, 4)).unwrap();
    selection.take_row(flat("b", 1, 2)).unwrap();
    assert_eq!(
        selection.finish(b"").unwrap_err().message(),
        "shape-strict replay requires one trace_block_size, found [2, 4]"
    );
    assert_eq!(
        SpoolSelection::new(None, 4).finish(b"").unwrap_err().message(),
        "the selected trace contains no requests"
    );
    assert_eq!(SelectionError::OutputOverflow.message(), "output token count overflow");
}

#[test]
fn stored_numbers_fit_the_store() {
    assert_eq!(u64_to_i64(7), Ok(7));
    assert_eq!(u64_to_i64(u64::MAX), Err(StoreRangeError::Timestamp));
    assert_eq!(usize_to_i64(7), Ok(7));
    assert_eq!(usize_to_i64(usize::MAX), Err(StoreRangeError::Value));
    assert_eq!(StoreRangeError::Value.message(), "trace value does not fit SQLite INTEGER");
}

#[test]
fn batches_follow_each_other() {
    let mut selection = SpoolSelection::new(Some(3), 2);
    let first = selection.next_query().unwrap();
    assert_eq!(first.limit, 2);
    for name in ["a", "b"] {
        selection.take_row(flat(name, 1, 2)).unwrap();
    }
    assert_eq!(selection.next_query().unwrap().limit, 1);
    selection.take_row(flat("c", 1, 2)).unwrap();
    assert!(selection.next_query().is_none());
}

#[test]
fn places_of_records() {
    let found = |line: &str| record_text(line);
    assert_eq!(found("{\"record\": 1, \"event\": {\"b\": 2.0, \"a\": []}}"), Some("{\"a\":[],\"b\":2.0}".to_string()));
    assert_eq!(found("{\"record\": null}"), Some("null".to_string()));
    assert_eq!(found(" [1] "), Some("[1]".to_string()));
    assert_eq!(found("{"), None);
}
