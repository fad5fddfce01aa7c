//! Replay: options, requests, schedules, responses and totals.

use agent_loadgen::agent::AgentKind;
use agent_loadgen::contracts::{AgentContext, TraceManifest, TraceRequest};
use agent_loadgen::double::Real;
use agent_loadgen::json::{parse_json, Json};
use agent_loadgen::replay::artifacts::{
    dispatch_timing_matches, summarize, FlushSchedule, RunAccumulator, RunCounts, RunSummary, SummaryIdentity,
};
use agent_loadgen::replay::causal::{CausalError, CausalScheduler, CausalStep, ScaledOffsets};
use agent_loadgen::replay::options::{
    duration_ns, models_target, normalize_target, prepare_open_file_limit, validate_agent, validate_lookahead,
    validate_options, HttpTransport, ReplayOptions, TrafficKind,
};
use agent_loadgen::replay::recorded::{
    PendingRequest, RecordedError, RecordedRun, RecordedScheduler, RecordedStep,
};
use agent_loadgen::replay::request::{prepare_request, PreparedRequest, RequestExecution};
use agent_loadgen::replay::result::{
    aborted, answered, completed_before_abort, is_success, refused, request_result_shell,
    selected_response_headers, streamed, unanswered, DispatchTimes, RequestResult,
};
use agent_loadgen::replay::stream::{chunk_contains_output, trim_ascii, StreamMetrics, StreamReader};
use agent_loadgen::replay::telemetry::{
    join_engine_telemetry, validate_record, EngineTelemetryRecord, TelemetryError,
};
use agent_loadgen::replay::workload::{CapturedWorkload, CausalWorkload};
use agent_loadgen::scenario::model::{CompactionExpectedEffect, GeneratedCompactionAttempt};
use agent_loadgen::text_map::TextMap;
use agent_loadgen::token_shape::alphabet::SafeTokenAlphabet;
use agent_loadgen::token_shape::dictionary::TokenDictionary;
use agent_loadgen::token_shape::error::TokenError;
use agent_loadgen::trace::agentic::{AgenticTrace, AgenticTurn};

fn value(json: &Json) -> serde_json::Value {
    match json {
        Json::Null => serde_json::Value::Null,
        Json::Bool(flag) => serde_json::Value::Bool(*flag),
        Json::Number(text) => serde_json::Value::Number(text.parse().unwrap()),
        Json::Text(text) => serde_json::Value::String(text.clone()),
        Json::Array(items) => serde_json::Value::Array(items.iter().map(value).collect()),
        Json::Object(fields) => {
            serde_json::Value::Object(fields.iter().map(|(name, inner)| (name.clone(), value(inner))).collect())
        }
    }
}

fn double(value: f64) -> Real {
    Real { bits: value.to_bits() }
}

fn options() -> ReplayOptions {
    ReplayOptions {
        agent: AgentKind::Codex,
        product: "product".to_string(),
        model: "test-model".to_string(),
        target: "http://localhost:8000".to_string(),
        output_dir: "out".to_string(),
        max_in_flight: 4,
        warmup_connections: 0,
        http_transport: HttpTransport::Http2PriorKnowledge,
        prepare_lookahead_ms: Some(100),
        result_flush_interval: 1,
        max_dispatch_p99_ms: double(100.0),
        max_dispatch_max_ms: double(100.0),
        start_delay_ms: 5,
        timeout_ms: 5000,
        time_scale: double(1.0),
        token_path_verified: false,
        engine_cache_mode: TextMap::new(),
        static_headers: Vec::new(),
    }
}

fn json(text: &str) -> Json {
    parse_json(text.as_bytes()).unwrap()
}

// -- options ----------------------------------------------------------------------------------

#[test]
fn target_normalization_accepts_base_or_endpoint() {
    assert_eq!(normalize_target("http://localhost:8000"), "http://localhost:8000/v1/chat/completions");
    assert_eq!(
        normalize_target("http://localhost:8000/v1/chat/completions"),
        "http://localhost:8000/v1/chat/completions"
    );
}

#[test]
fn endpoints_lead_to_the_models() {
    assert_eq!(normalize_target("http://host/"), "http://host/v1/chat/completions");
    assert_eq!(models_target("http://host/v1/chat/completions"), "http://host/v1/models");
}

fn refusal(change: impl Fn(&mut ReplayOptions)) -> String {
    let mut options = options();
    change(&mut options);
    validate_options(&options).unwrap_err().message()
}

#[test]
fn options_are_checked() {
    assert!(validate_options(&options()).is_ok());
    assert_eq!(refusal(|options| options.model = " ".to_string()), "model must not be empty");
    assert_eq!(refusal(|options| options.max_in_flight = 0), "max_in_flight must be greater than zero");
    assert_eq!(
        refusal(|options| options.warmup_connections = 5),
        "warmup_connections must not exceed max_in_flight"
    );
    assert_eq!(
        refusal(|options| options.result_flush_interval = 0),
        "result_flush_interval must be greater than zero"
    );
    assert_eq!(refusal(|options| options.time_scale = double(0.0)), "time_scale must be a positive finite number");
    assert_eq!(
        refusal(|options| options.max_dispatch_p99_ms = double(-1.0)),
        "max_dispatch_p99_ms must be a non-negative finite number"
    );
    assert_eq!(
        refusal(|options| options.max_dispatch_max_ms = double(f64::NAN)),
        "max_dispatch_max_ms must be a non-negative finite number"
    );
    let header = |name: &str, value: &str| {
        let name = name.to_string();
        let value = value.to_string();
        refusal(move |options| options.static_headers = vec![(name.clone(), value.clone())])
    };
    assert_eq!(header("Thread-ID", "x"), "static header \"Thread-ID\" is owned by agent-loadgen");
    assert_eq!(header("bad name", "x"), "invalid static header name \"bad name\"");
    assert_eq!(header("x-ok", "a\nb"), "invalid value for static header \"x-ok\"");
    let mut accepted = options();
    accepted.static_headers = vec![("authorization".to_string(), "Bearer x".to_string())];
    assert!(validate_options(&accepted).is_ok());
    assert_eq!(
        validate_lookahead(0).unwrap_err().message(),
        "prepare_lookahead must be greater than zero"
    );
    assert!(validate_lookahead(1).is_ok());
    assert!(validate_agent(&options(), AgentKind::Codex).is_ok());
    assert_eq!(
        validate_agent(&options(), AgentKind::ClaudeCode).unwrap_err().message(),
        "generated scenario agent does not match the request header adapter"
    );
}

#[test]
fn open_files_are_reserved() {
    assert_eq!(prepare_open_file_limit(100, 1024, 4096).unwrap(), None);
    assert_eq!(prepare_open_file_limit(2000, 1024, 4096).unwrap(), Some(2064));
    assert_eq!(
        prepare_open_file_limit(5000, 1024, 4096).unwrap_err().message(),
        "max_in_flight requires at least 5064 open files, but RLIMIT_NOFILE hard limit is 4096"
    );
    assert_eq!(
        prepare_open_file_limit(usize::MAX, 1, 1).unwrap_err().message(),
        "the requested open-file limit overflows usize"
    );
    assert_eq!(duration_ns(u128::MAX), u64::MAX);
    assert_eq!(duration_ns(5), 5);
    assert_eq!(TrafficKind::CapturedTrace.scheduling_model(), "agentic_causal");
}

// -- requests ---------------------------------------------------------------------------------

fn request(ordinal: usize, received_ms: u64) -> TraceRequest {
    TraceRequest {
        ordinal,
        source_request_id: format!("source-{ordinal}"),
        source_x_request_id: None,
        source_model: None,
        input_tokens: 3,
        output_tokens: 2,
        request_received_ms: received_ms,
        trace_block_size: 16,
        input_sequence_hashes: vec![11],
        agent_context: Some(AgentContext {
            session_id: "thread-1".to_string(),
            parent_session_id: None,
            session_final: None,
            compaction: Some("{\"phase\":\"mid_turn\"}".to_string()),
            input_trigger: Some("tool_result".to_string()),
        }),
    }
}

fn dictionary() -> TokenDictionary {
    TokenDictionary::new(16, 1, SafeTokenAlphabet::from_unverified_range(100, 1024, &[]).unwrap()).unwrap()
}

fn prepared(ordinal: usize) -> PreparedRequest {
    let execution = RequestExecution { output_budget_tokens: Some(2), compaction_attempt: None };
    prepare_request("run", &options(), &dictionary(), request(ordinal, 1000), execution).unwrap()
}

#[test]
fn requests_carry_shape_and_agent_headers() {
    let prepared = prepared(0);
    let header = |name: &str| {
        prepared.headers.iter().find(|(key, _)| key == name).map(|(_, value)| value.clone()).unwrap()
    };
    assert_eq!(header("thread-id"), "thread-1");
    assert_eq!(header("x-dynamo-session-id"), "thread-1");
    assert_eq!(header("x-request-id"), "agent-loadgen-run-0");
    let metadata: serde_json::Value = serde_json::from_str(&header("x-codex-turn-metadata")).unwrap();
    assert_eq!(metadata["request_kind"], "compaction");
    assert_eq!(metadata["compaction"]["phase"], "mid_turn");
    let body = value(&prepared.body);
    assert_eq!(body["max_tokens"], 2);
    assert!(body.get("min_tokens").is_none());
    assert_eq!(body["ignore_eos"], true);
    assert_eq!(body["messages"][0]["role"], "assistant");
    assert_eq!(body["messages"][1]["role"], "tool");
    assert_eq!(body["messages"][1]["tool_call_id"], "agent-loadgen-shape-tool");
    assert_eq!(body["nvext"]["token_data"].as_array().unwrap().len(), 3);
    assert_eq!(body["model"], "test-model");
    assert_eq!(body["stream"], true);
}

#[test]
fn requests_without_a_budget_are_open_ended() {
    let execution = RequestExecution { output_budget_tokens: None, compaction_attempt: None };
    let prepared = prepare_request("run", &options(), &dictionary(), request(3, 0), execution).unwrap();
    let body = value(&prepared.body);
    assert!(body.get("max_tokens").is_none());
    assert!(body.get("ignore_eos").is_none());
    assert_eq!(
        body.to_string(),
        r#"{"messages":[{"content":null,"role":"assistant","tool_calls":[{"function":{"arguments":"{}","name":"shape_tool"},"id":"agent-loadgen-shape-tool","type":"function"}]},{"content":"shape replay","role":"tool","tool_call_id":"agent-loadgen-shape-tool"}],"model":"test-model","nvext":{"token_data":[257,112,668]},"stream":true,"stream_options":{"include_usage":true},"temperature":0.0}"#
    );
    assert_eq!(prepared.metadata.expected_output_tokens, None);
    assert_eq!(prepared.metadata.replay_request_id, "agent-loadgen-run-3");
}

// -- schedules --------------------------------------------------------------------------------

fn turn(ordinal: usize, dependencies: Vec<usize>, arrival_ms: Option<u64>, delay_ms: u64) -> AgenticTurn {
    AgenticTurn {
        request: request(ordinal, 0),
        dependencies,
        root_arrival_ms: arrival_ms,
        delay_after_dependencies_ms: delay_ms,
        tool_delay_ms: 0,
        other_delay_ms: delay_ms,
    }
}

fn manifest(count: usize) -> TraceManifest {
    TraceManifest {
        request_count: count,
        session_count: 1,
        requests_with_agent_context: count,
        first_request_received_ms: 1000,
        last_request_received_ms: 1000,
        duration_ms: 0,
        input_tokens: 3,
        output_tokens: 2,
        distinct_sequence_hashes: 1,
        trace_block_size: 16,
        source_digest_sha256: "source".to_string(),
    }
}

fn offsets(turns: &Vec<AgenticTurn>) -> ScaledOffsets {
    ScaledOffsets {
        arrival_ns: turns.iter().map(|turn| turn.root_arrival_ms.map(|ms| ms * 1_000_000)).collect(),
        delay_ns: turns.iter().map(|turn| Some(turn.delay_after_dependencies_ms * 1_000_000)).collect(),
    }
}

fn ordinals(requests: Vec<agent_loadgen::replay::causal::DueRequest>) -> Vec<usize> {
    requests.into_iter().map(|due| due.ordinal).collect()
}

#[test]
fn successors_leave_after_everything_they_wait_for() {
    let turns = vec![
        turn(0, vec![], Some(0), 0),
        turn(1, vec![], Some(5), 0),
        turn(2, vec![0, 1], None, 10),
    ];
    let scaled = offsets(&turns);
    let trace = AgenticTrace { manifest: manifest(3), turns };
    let options = options();
    let dictionary = dictionary();
    let workload = CapturedWorkload { trace: &trace, dictionary: &dictionary, run_id: "run", options: &options };
    assert_eq!(workload.name(), "captured agentic replay");
    let mut scheduler = CausalScheduler::start(&workload, scaled).unwrap();
    assert_eq!(scheduler.next_step(0), CausalStep::Dispatch);
    assert_eq!(ordinals(scheduler.take_due(0)), vec![0]);
    assert_eq!(scheduler.next_step(0), CausalStep::SleepOrComplete { until_ns: 5_000_000 });
    assert_eq!(scheduler.complete(0, 1_000_000).unwrap(), Vec::<usize>::new());
    assert_eq!(scheduler.next_step(2_000_000), CausalStep::Sleep { until_ns: 5_000_000 });
    assert_eq!(ordinals(scheduler.take_due(5_000_000)), vec![1]);
    assert_eq!(scheduler.next_step(5_000_000), CausalStep::Complete);
    assert_eq!(scheduler.complete(1, 7_000_000).unwrap(), vec![2]);
    assert_eq!(scheduler.next_step(7_000_000), CausalStep::Sleep { until_ns: 17_000_000 });
    assert!(scheduler.take_due(16_999_999).is_empty());
    assert_eq!(ordinals(scheduler.take_due(17_000_000)), vec![2]);
    assert!(scheduler.finish().is_err());
    assert_eq!(scheduler.complete(2, 18_000_000).unwrap(), Vec::<usize>::new());
    assert_eq!(scheduler.next_step(18_000_000), CausalStep::Finish);
    assert!(scheduler.finish().is_ok());
}

fn start_failure(turns: Vec<AgenticTurn>, scaled: ScaledOffsets) -> String {
    let trace = AgenticTrace { manifest: manifest(turns.len()), turns };
    let options = options();
    let dictionary = dictionary();
    let workload = CapturedWorkload { trace: &trace, dictionary: &dictionary, run_id: "run", options: &options };
    match CausalScheduler::start(&workload, scaled) {
        Ok(_) => panic!("the graph was accepted"),
        Err(error) => error.message("captured agentic replay"),
    }
}

#[test]
fn broken_graphs_do_not_start() {
    let turns = vec![turn(0, vec![4], None, 0)];
    let scaled = offsets(&turns);
    assert_eq!(start_failure(turns, scaled), "captured agentic replay node 0 has missing dependency 4");
    let turns = vec![turn(0, vec![], None, 0)];
    let scaled = offsets(&turns);
    assert_eq!(start_failure(turns, scaled), "captured agentic replay root node 0 has no initial arrival");
    let turns = vec![turn(0, vec![], Some(0), 0), turn(1, vec![0], Some(1), 0)];
    let scaled = offsets(&turns);
    assert_eq!(
        start_failure(turns, scaled),
        "captured agentic replay dependent node 1 also has an initial arrival"
    );
    let turns = vec![turn(0, vec![], Some(0), 0)];
    assert_eq!(
        start_failure(turns, ScaledOffsets { arrival_ns: vec![None], delay_ns: vec![Some(0)] }),
        "scaled replay timestamp is outside the u64 nanosecond range"
    );
    let mut other = turn(0, vec![], Some(0), 0);
    other.request.trace_block_size = 8;
    let turns = vec![other];
    let scaled = offsets(&turns);
    assert_eq!(start_failure(turns, scaled), "request block size does not match the token dictionary");
    assert_eq!(
        CausalError::Stalled { completed: 1, total: 2 }.message("plan"),
        "plan graph stalled after 1 of 2 requests"
    );
}

#[test]
fn completion_times_do_not_overflow() {
    let turns = vec![turn(0, vec![], Some(0), 0), turn(1, vec![0], None, 10)];
    let scaled = offsets(&turns);
    let trace = AgenticTrace { manifest: manifest(2), turns };
    let options = options();
    let dictionary = dictionary();
    let workload = CapturedWorkload { trace: &trace, dictionary: &dictionary, run_id: "run", options: &options };
    let mut scheduler = CausalScheduler::start(&workload, scaled).unwrap_or_else(|_| panic!("no start"));
    scheduler.take_due(0);
    assert_eq!(
        scheduler.complete(0, u64::MAX).unwrap_err().message("plan"),
        "causal successor timestamp overflow"
    );
}

fn pending(ordinal: usize, ready_at_ns: Option<u64>) -> Option<PendingRequest> {
    Some(PendingRequest { request: request(ordinal, 0), ready_at_ns })
}

#[test]
fn recorded_requests_leave_in_order() {
    let options = options();
    let dictionary = dictionary();
    let run = RecordedRun { dictionary: &dictionary, run_id: "run", options: &options, lookahead_ns: 100 };
    let mut scheduler = RecordedScheduler::new(pending(0, Some(50)), 8);
    assert_eq!(scheduler.prepare_next(&run, 40).unwrap(), false);
    assert_eq!(scheduler.prepare_next(&run, 50).unwrap(), true);
    scheduler.offer(pending(1, Some(50)));
    assert_eq!(scheduler.prepare_next(&run, 50).unwrap(), true);
    scheduler.offer(pending(2, Some(500)));
    scheduler.wake(49);
    assert!(scheduler.take_ready().is_none());
    assert_eq!(scheduler.next_step(100), RecordedStep::Sleep { until_ns: 50 });
    scheduler.wake(52);
    assert_eq!(scheduler.next_step(100), RecordedStep::Dispatch);
    let first = scheduler.take_ready().unwrap();
    assert_eq!(first.scheduled.request.metadata.ordinal, 0);
    assert_eq!(first.scheduled.ready_at_ns, 50);
    assert_eq!(first.woken_at_ns, 52);
    assert_eq!(scheduler.take_ready().unwrap().scheduled.request.metadata.ordinal, 1);
    assert!(scheduler.take_ready().is_none());
    assert_eq!(scheduler.next_step(100), RecordedStep::SleepOrComplete { until_ns: 400 });
    scheduler.settle();
    assert_eq!(scheduler.next_step(100), RecordedStep::SleepOrComplete { until_ns: 400 });
    scheduler.settle();
    assert_eq!(scheduler.next_step(100), RecordedStep::Sleep { until_ns: 400 });
    scheduler.settle();
    assert_eq!(scheduler.next_step(100), RecordedStep::Sleep { until_ns: 400 });
    scheduler.offer(None);
    assert_eq!(scheduler.next_step(100), RecordedStep::Finish);
}

#[test]
fn recorded_requests_wait_for_a_slot() {
    let options = options();
    let dictionary = dictionary();
    let run = RecordedRun { dictionary: &dictionary, run_id: "run", options: &options, lookahead_ns: 100 };
    let mut scheduler = RecordedScheduler::new(pending(0, Some(0)), 1);
    for ordinal in 1..4 {
        assert!(scheduler.prepare_next(&run, 100).unwrap());
        scheduler.offer(if ordinal < 3 { pending(ordinal, Some(ordinal as u64 * 10)) } else { None });
    }
    scheduler.wake(15);
    assert_eq!(scheduler.take_ready().unwrap().scheduled.request.metadata.ordinal, 0);
    assert!(scheduler.take_ready().is_none());
    assert_eq!(scheduler.next_step(100), RecordedStep::SleepOrComplete { until_ns: 20 });
    scheduler.wake(25);
    assert!(scheduler.take_ready().is_none());
    assert_eq!(scheduler.next_step(100), RecordedStep::Complete);
    scheduler.settle();
    assert_eq!(scheduler.next_step(100), RecordedStep::Dispatch);
    let second = scheduler.take_ready().unwrap();
    assert_eq!((second.scheduled.request.metadata.ordinal, second.woken_at_ns), (1, 15));
    let times = DispatchTimes { base_ns: 1_000, scheduled_ns: 1_010, scheduler_wake_ns: 1_015, dispatch_ns: 1_090 };
    let result = request_result_shell(times, 10, &second.scheduled.request.metadata);
    assert_eq!(result.local_admission_lag_ns, 75);
    assert!(result.error.is_none());
    scheduler.settle();
    let third = scheduler.take_ready().unwrap();
    assert_eq!((third.scheduled.request.metadata.ordinal, third.woken_at_ns), (2, 25));
    assert_eq!(scheduler.next_step(100), RecordedStep::Complete);
    scheduler.settle();
    assert_eq!(scheduler.next_step(100), RecordedStep::Finish);
}

#[test]
fn recorded_requests_without_a_time_are_looked_at_at_once() {
    let scheduler = RecordedScheduler::new(pending(0, None), 1);
    assert_eq!(scheduler.next_step(100), RecordedStep::Sleep { until_ns: 0 });
}

#[test]
fn recorded_requests_are_refused_with_reason() {
    let options = options();
    let dictionary = dictionary();
    let run = RecordedRun { dictionary: &dictionary, run_id: "run", options: &options, lookahead_ns: 100 };
    let mut scheduler = RecordedScheduler::new(pending(0, None), 8);
    assert!(matches!(scheduler.prepare_next(&run, 50), Err(RecordedError::OutOfRange)));
    let mut scheduler = RecordedScheduler::new(pending(5, Some(10)), 8);
    assert!(scheduler.prepare_next(&run, 50).unwrap());
    scheduler.offer(pending(4, Some(10)));
    assert_eq!(
        scheduler.prepare_next(&run, 50).unwrap_err().message(),
        "the trace request stream is not ordered by timestamp and ordinal"
    );
    let mut silent = request(0, 0);
    silent.output_tokens = 0;
    let mut scheduler = RecordedScheduler::new(Some(PendingRequest { request: silent, ready_at_ns: Some(1) }), 8);
    assert_eq!(
        scheduler.prepare_next(&run, 50).unwrap_err().message(),
        "request source-0 has zero output tokens"
    );
    let mut other = request(0, 0);
    other.trace_block_size = 8;
    let mut scheduler = RecordedScheduler::new(Some(PendingRequest { request: other, ready_at_ns: Some(1) }), 8);
    assert!(matches!(
        scheduler.prepare_next(&run, 50),
        Err(RecordedError::Preparation(TokenError::OtherBlockSize))
    ));
}

// -- streams ----------------------------------------------------------------------------------

#[test]
fn detects_output_chunks() {
    assert!(!chunk_contains_output(&json("{\"choices\":[{\"delta\":{\"role\":\"assistant\"}}]}")));
    assert!(chunk_contains_output(&json("{\"choices\":[{\"delta\":{\"content\":\"x\"}}]}")));
}

fn payloads(chunks: &[&[u8]]) -> Vec<Vec<u8>> {
    let mut reader = StreamReader::new();
    let mut found = Vec::new();
    for chunk in chunks {
        reader.push(chunk);
        while let Some(payload) = reader.next_data() {
            found.push(payload);
        }
    }
    assert!(reader.finish().is_ok());
    found
}

#[test]
fn chunk_borders_do_not_matter() {
    let whole = payloads(&[b": note\ndata: {\"a\":1}\r\n\ndata: [DONE]\n\ndata:x\n"]);
    let split = payloads(&[b": no", b"te\nda", b"ta: {\"a\":1}\r", b"\n\ndata: [DONE]\n\nd", b"ata:x\n"]);
    assert_eq!(whole, split);
    assert_eq!(whole, vec![b"{\"a\":1}".to_vec(), b"x".to_vec()]);
    assert_eq!(trim_ascii(b" \tx \r"), b"x");
}

#[test]
fn payloads_are_read_as_json() {
    let mut reader = StreamReader::new();
    reader.observe_payload(b"{\"choices\":[{\"delta\":{\"content\":\"x\"}}]}", 7).unwrap();
    assert_eq!(
        reader.observe_payload(b"{\"choices\":[", 8).unwrap_err().message(),
        "the response contains invalid SSE JSON"
    );
    assert_eq!(
        reader.observe_payload(b"{\"error\":\"busy\",\"usage\":{\"completion_tokens\":4}}", 9).unwrap_err().message(),
        "the response stream returned an error: \"busy\""
    );
    let metrics = reader.finish().unwrap();
    assert_eq!(metrics.ttft_ns, Some(7));
    assert_eq!(metrics.output_tokens, Some(4));
}

#[test]
fn streams_are_measured() {
    let mut reader = StreamReader::new();
    reader.observe(&json("{\"choices\":[{\"delta\":{\"role\":\"assistant\"}}]}"), 5);
    reader.observe(&json("{\"choices\":[{\"delta\":{\"content\":\"x\"}}]}"), 7);
    reader.observe(&json("{\"choices\":[{\"delta\":{\"content\":\"y\"}}]}"), 9);
    reader.observe(&json("{\"choices\":[],\"usage\":{\"completion_tokens\":2}}"), 11);
    let metrics = reader.finish().unwrap();
    assert_eq!(metrics.ttft_ns, Some(7));
    assert_eq!(metrics.output_tokens, Some(2));
    let mut reader = StreamReader::new();
    assert_eq!(
        reader.observe_payload(b"{\"error\": {\"code\": 3}}", 1).unwrap_err().message(),
        "the response stream returned an error: {\"code\":3}"
    );
    let mut reader = StreamReader::new();
    reader.push(b"data: half");
    assert_eq!(
        reader.finish().unwrap_err().message(),
        "the response stream ended with an incomplete SSE line"
    );
}

// -- results and totals -----------------------------------------------------------------------

fn times() -> DispatchTimes {
    DispatchTimes { base_ns: 100, scheduled_ns: 1_100, scheduler_wake_ns: 1_200, dispatch_ns: 1_500 }
}

fn shell() -> RequestResult {
    request_result_shell(times(), 1_000, &prepared(0).metadata)
}

#[test]
fn results_begin_with_their_times() {
    let result = shell();
    assert_eq!(result.scheduled_offset_ns, 1_000);
    assert_eq!(result.scheduler_wake_offset_ns, 1_100);
    assert_eq!(result.scheduler_wake_lag_ns, 100);
    assert_eq!(result.dispatch_offset_ns, 1_400);
    assert_eq!(result.dispatch_lag_ns, 400);
    assert_eq!(result.local_admission_lag_ns, 300);
    assert_eq!(result.session_id, Some("thread-1".to_string()));
    assert_eq!(result.expected_output_tokens, Some(2));
    assert!(result.error.is_none());
}

#[test]
fn results_keep_selected_headers() {
    let kept = selected_response_headers(vec![
        ("x-request-id".to_string(), Some("1".to_string())),
        ("x-dynamo-worker".to_string(), Some("2".to_string())),
        ("content-type".to_string(), Some("3".to_string())),
        ("x-dynamo-binary".to_string(), None),
    ]);
    assert_eq!(
        kept.entries(),
        &vec![
            ("x-dynamo-worker".to_string(), "2".to_string()),
            ("x-request-id".to_string(), "1".to_string())
        ]
    );
    assert!(is_success(204) && !is_success(300));
    let result = refused(answered(shell(), 503, Vec::new()), 9, "503 Service Unavailable", &"x".repeat(600));
    assert_eq!(result.status_code, Some(503));
    assert_eq!(result.error.unwrap(), format!("HTTP 503 Service Unavailable: {}", "x".repeat(512)));
    let result = unanswered(shell(), 9, "refused".to_string());
    assert_eq!(result.error, Some("refused".to_string()));
    let result = completed_before_abort(shell(), 25);
    assert_eq!(
        result.error,
        Some("planned compaction abort after 25 ms completed before cancellation".to_string())
    );
}

fn finished(tokens: Option<u64>) -> RequestResult {
    streamed(answered(shell(), 200, Vec::new()), 9_000, StreamMetrics { ttft_ns: Some(5), output_tokens: tokens })
}

#[test]
fn hard_dispatch_limit_uses_the_unrounded_maximum() {
    let mut counts = RunAccumulator::new(10_000_000).unwrap().counts();
    counts.request_count = 1;
    counts.dispatch_at_or_below_p99_limit = 1;
    counts.dispatch_max_ns = 5_000_400;
    assert!(!dispatch_timing_matches(&counts, 5_000_000));
}

#[test]
fn most_requests_must_leave_on_time() {
    let counts = |total: usize, on_time: usize| RunCounts {
        request_count: total,
        succeeded: 0,
        budgeted_requests: 0,
        unbudgeted_requests: 0,
        planned_aborts: 0,
        output_length_matches: 0,
        output_length_mismatches: 0,
        missing_output_usage: 0,
        planned_abort_matches: 0,
        planned_abort_mismatches: 0,
        dispatch_at_or_below_p99_limit: on_time,
        dispatch_max_ns: 1,
    };
    assert!(dispatch_timing_matches(&counts(100, 99), 1));
    assert!(!dispatch_timing_matches(&counts(100, 98), 1));
    assert!(!dispatch_timing_matches(&counts(50, 49), 1));
    assert!(dispatch_timing_matches(&counts(0, 0), 1));
}

fn summary(accumulator: &RunAccumulator, options: &ReplayOptions, requests: usize) -> RunSummary {
    summarize(
        SummaryIdentity {
            traffic_kind: TrafficKind::CapturedTrace,
            run_id: "run".to_string(),
            target: "http://host".to_string(),
            timer_backend: "tokio".to_string(),
            source_storage: None,
            session_topology: None,
        },
        &manifest(requests),
        dictionary().manifest(),
        options,
        accumulator,
        1_000,
        77,
    )
}

#[test]
fn totals_count_every_result() {
    let mut accumulator = RunAccumulator::new(400).unwrap();
    accumulator.record(&finished(Some(2))).unwrap();
    accumulator.record(&finished(Some(3))).unwrap();
    accumulator.record(&finished(None)).unwrap();
    accumulator.record(&unanswered(shell(), 9, "refused".to_string())).unwrap();
    let attempt = GeneratedCompactionAttempt {
        operation_id: "operation".to_string(),
        phase: "pre_turn".to_string(),
        attempt: 1,
        expected_effect: CompactionExpectedEffect::NoMutationAborted,
        abort_after_ms: Some(5),
    };
    let execution = RequestExecution { output_budget_tokens: None, compaction_attempt: Some(attempt) };
    let planned = prepare_request("run", &options(), &dictionary(), request(0, 0), execution).unwrap();
    let mut slow = times();
    slow.dispatch_ns = 2_501_100;
    let given_up = aborted(request_result_shell(slow, 0, &planned.metadata), 9);
    accumulator.record(&given_up).unwrap();
    let counts = accumulator.counts();
    assert_eq!(counts.request_count, 5);
    assert_eq!(counts.succeeded, 4);
    assert_eq!(counts.budgeted_requests, 4);
    assert_eq!(counts.unbudgeted_requests, 1);
    assert_eq!(counts.output_length_matches, 1);
    assert_eq!(counts.output_length_mismatches, 1);
    assert_eq!(counts.missing_output_usage, 2);
    assert_eq!(counts.planned_aborts, 1);
    assert_eq!(counts.planned_abort_matches, 1);
    assert_eq!(counts.dispatch_at_or_below_p99_limit, 4);
    assert_eq!(counts.dispatch_max_ns, 2_500_000);
    let options = options();
    let summary = summary(&accumulator, &options, 5);
    assert_eq!(summary.failed, 1);
    assert_eq!(summary.dispatch_lag_us.min, 0);
    assert!((2_499..=2_502).contains(&summary.dispatch_lag_us.max));
    assert_eq!(summary.dispatch_lag_max_ns, 2_500_000);
    assert!(!summary.request_fidelity_matches && !summary.dispatch_timing_matches && !summary.passed);
    assert_eq!(
        summary.conclusion_blockers,
        vec!["token_path_unverified".to_string(), "engine_cache_mode_undeclared".to_string()]
    );
    assert_eq!(summary.protocol_surface, "chat_completions");
    assert_eq!(summary.total_time_ns, 77);
}

#[test]
fn a_clean_run_passes() {
    let mut accumulator = RunAccumulator::new(400).unwrap();
    accumulator.record(&finished(Some(2))).unwrap();
    let mut options = options();
    options.token_path_verified = true;
    options.engine_cache_mode.insert("ownership".to_string(), "session".to_string());
    options.static_headers = vec![("authorization".to_string(), "x".to_string())];
    let summary = summary(&accumulator, &options, 1);
    assert!(summary.passed);
    assert!(summary.capacity_performance_conclusions_allowed);
    assert_eq!(summary.static_header_names, vec!["authorization".to_string()]);
    assert_eq!(summary.engine_cache_mode, vec![("ownership".to_string(), "session".to_string())]);
    assert_eq!(summary.scheduling_model, "agentic_causal");
    assert_eq!(summary.scheduler_wake_lag_us.p50, 0);
}

#[test]
fn results_are_flushed_now_and_then() {
    let mut schedule = FlushSchedule::new(3);
    assert_eq!(
        (0..7).map(|_| schedule.wrote()).collect::<Vec<_>>(),
        vec![false, false, true, false, false, true, false]
    );
}

// -- telemetry --------------------------------------------------------------------------------

fn telemetry(request_id: &str) -> EngineTelemetryRecord {
    EngineTelemetryRecord {
        request_id: request_id.to_string(),
        timestamp_ms: None,
        cache_source_tokens: vec![("gpu".to_string(), 12)],
        physical_free_tokens: Some(3),
        physical_free_events: None,
        cache_ownership_tokens: vec![("shared".to_string(), 8), ("session".to_string(), 4)],
        occupancy_tokens: Some(99),
        queue_time_ms: Some(double(1.5)),
        extra: Vec::new(),
    }
}

fn named(replay: &str, source: &str) -> RequestResult {
    let mut result = shell();
    result.replay_request_id = replay.to_string();
    result.source_request_id = source.to_string();
    result
}

#[test]
fn joins_by_replay_request_id_without_interpreting_cache_policy() {
    let (joined, summary) = join_engine_telemetry(
        &vec![named("replay", "source")],
        vec![("engine.jsonl".to_string(), vec![telemetry("replay")])],
        "joined.jsonl".to_string(),
    )
    .unwrap();
    assert_eq!(summary.matched_requests, 1);
    assert_eq!(summary.unmatched_telemetry_records, 0);
    assert_eq!(joined[0][0].cache_source_tokens, vec![("gpu".to_string(), 12)]);
    assert_eq!(joined[0][0].cache_ownership_tokens[0], ("shared".to_string(), 8));
}

#[test]
fn joins_telemetry_from_replay_and_source_id_spaces() {
    let (joined, summary) = join_engine_telemetry(
        &vec![named("replay", "source")],
        vec![("engine.jsonl".to_string(), vec![telemetry("replay"), telemetry("source")])],
        "joined.jsonl".to_string(),
    )
    .unwrap();
    assert_eq!(summary.telemetry_records, 2);
    assert_eq!(summary.unmatched_telemetry_records, 0);
    assert_eq!(joined[0].len(), 2);
}

#[test]
fn each_record_goes_to_one_request() {
    let (joined, summary) = join_engine_telemetry(
        &vec![named("a", "shared"), named("b", "shared")],
        vec![
            ("one".to_string(), vec![telemetry("shared"), telemetry("nobody")]),
            ("two".to_string(), vec![telemetry("a"), telemetry("shared")]),
        ],
        "out".to_string(),
    )
    .unwrap();
    assert_eq!(joined[0].len(), 3);
    assert_eq!(joined[0][0].request_id, "a");
    assert!(joined[1].is_empty());
    assert_eq!(summary.request_records, 2);
    assert_eq!(summary.matched_requests, 1);
    assert_eq!(summary.unmatched_requests, 1);
    assert_eq!(summary.unmatched_telemetry_records, 1);
    assert_eq!(summary.output, "out");
}

#[test]
fn telemetry_is_checked() {
    let join = |files| join_engine_telemetry(&Vec::new(), files, "out".to_string()).unwrap_err();
    assert_eq!(join(Vec::new()).message(), "at least one engine telemetry file is required");
    assert_eq!(
        join(vec![("f".to_string(), vec![telemetry("a"), telemetry(" ")])]).message(),
        "f contains an empty telemetry request_id"
    );
    let mut late = telemetry("a");
    late.queue_time_ms = Some(double(-1.0));
    assert!(matches!(validate_record(&late, &"f".to_string()), Some(TelemetryError::BadQueueTime { .. })));
    assert_eq!(
        join(vec![("f".to_string(), vec![late])]).message(),
        "f contains a negative or non-finite queue_time_ms"
    );
}
