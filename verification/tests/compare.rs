//! Comparing a replay with its source.

use agent_loadgen::agent::{agent_headers, is_managed_header, AgentKind};
use agent_loadgen::compare::{
    add_mismatch, agent_context_core_matches, arrival_offsets, canonical_prefix_sequences, compare_loaded,
    match_requests, validate_options, ArrivalMeasure, CompareError, CompareOptions, FidelityReport, RequestMapping,
};
use agent_loadgen::contracts::{percentiles, AgentContext, TraceRequest};
use agent_loadgen::double::Real;

fn double(value: f64) -> Real {
    Real { bits: value.to_bits() }
}

fn request(id: &str, x_request_id: Option<&str>, received: u64, hashes: &[u64]) -> TraceRequest {
    TraceRequest {
        ordinal: 0,
        source_request_id: id.to_string(),
        source_x_request_id: x_request_id.map(str::to_string),
        source_model: None,
        input_tokens: hashes.len() * 2,
        output_tokens: 2,
        request_received_ms: received,
        trace_block_size: 2,
        input_sequence_hashes: hashes.to_vec(),
        agent_context: None,
    }
}

fn mapping(source: &str, replay: &str) -> RequestMapping {
    RequestMapping { source_request_id: source.to_string(), replay_request_id: replay.to_string() }
}

fn errors(source: &Vec<TraceRequest>, replay: &Vec<TraceRequest>, mappings: &Vec<RequestMapping>, time_scale: f64) -> Vec<f64> {
    let matched = match_requests(source, replay, mappings).unwrap();
    arrival_offsets(source, replay, &matched)
        .into_iter()
        .map(|(from, to)| to as f64 - from as f64 / time_scale)
        .collect()
}

fn greatest(errors: &[f64]) -> f64 {
    errors.iter().fold(0.0, |greatest: f64, error| greatest.max(error.abs()))
}

#[test]
fn canonical_labels_compare_equality_instead_of_hash_values() {
    let source_a = request("a", None, 100, &[11, 22]);
    let source_b = request("b", None, 120, &[11, 33]);
    let replay_a = request("ra", Some("x-a"), 1000, &[101, 202]);
    let replay_b = request("rb", Some("x-b"), 1020, &[101, 303]);
    let pairs = vec![(&source_a, &replay_a), (&source_b, &replay_b)];
    assert_eq!(canonical_prefix_sequences(&pairs, true), canonical_prefix_sequences(&pairs, false));
    let source = vec![source_a.clone(), source_b.clone()];
    let replay = vec![replay_a.clone(), replay_b.clone()];
    let mappings = vec![mapping("a", "x-a"), mapping("b", "x-b")];
    assert_eq!(greatest(&errors(&source, &replay, &mappings, 1.0)), 0.0);
    assert_eq!(greatest(&errors(&source, &replay, &mappings, 2.0)), 10.0);
}

fn context(session_id: &str, compaction: Option<&str>) -> AgentContext {
    AgentContext {
        session_id: session_id.to_string(),
        parent_session_id: None,
        session_final: Some(true),
        compaction: compaction.map(str::to_string),
        input_trigger: Some("other".to_string()),
    }
}

#[test]
fn core_agent_context_ignores_opaque_compaction_metadata() {
    let source = context("thread", Some("{\"phase\":\"post_tool\"}"));
    let mut replay = source.clone();
    replay.compaction = None;
    assert!(agent_context_core_matches(&Some(source), &Some(replay)));
}

#[test]
fn contexts_differ_in_their_sessions() {
    assert!(!agent_context_core_matches(&Some(context("a", None)), &Some(context("b", None))));
    assert!(!agent_context_core_matches(&Some(context("a", None)), &None));
    assert!(agent_context_core_matches(&None, &None));
}

#[test]
fn contexts_are_shown_with_their_metadata() {
    let metadata = "{\"phase\":\"post\\ntool\",\"n\":[1,null,true,-2.5,{}]}";
    let mut requests = source();
    requests[0].agent_context = Some(context("s", Some(metadata)));
    let report = compared(requests, replay(), mappings(), 5.0).unwrap();
    let value: serde_json::Value = serde_json::from_str(metadata).unwrap();
    let shown = format!("{value:?}");
    assert_eq!(
        shown,
        "Object {\"n\": Array [Number(1), Null, Bool(true), Number(-2.5), Object {}], \"phase\": String(\"post\\ntool\")}"
    );
    assert_eq!(
        report.mismatches,
        vec![format!(
            "request a agent_context mismatch: source=Some(AgentContext {{ session_id: \"s\", parent_session_id: None, \
             session_final: Some(true), compaction: Some({shown}), input_trigger: Some(\"other\") }}), replay=None"
        )]
    );
    assert_eq!(report.warnings.len(), 1);
}

#[test]
fn metadata_are_compared_as_values() {
    let matches = |left: &str, right: &str| {
        let mut requests = source();
        let mut answers = replay();
        requests[0].agent_context = Some(context("s", Some(left)));
        let at = answers.iter().position(|answer| answer.source_x_request_id.as_deref() == Some("x-a")).unwrap();
        answers[at].agent_context = Some(context("s", Some(right)));
        let pairs = requests.len();
        let report = compared(requests, answers, mappings(), 5.0).unwrap();
        assert!(report.mismatches.is_empty());
        report.compaction_metadata_matches == pairs
    };
    assert!(matches("{\"a\": [0.0, 1]}", "{\"a\":[-0.0,1]}"));
    assert!(matches("{\"b\":\"\\u0061\",\"a\":1e1}", "{\"a\":10.0,\"b\":\"a\"}"));
    assert!(!matches("{\"a\":1}", "{\"a\":1.0}"));
    assert!(!matches("{\"a\":0}", "{\"a\":0.0}"));
    assert!(!matches("[1]", "[1,1]"));
    assert!(matches("plain", "plain"));
    assert!(!matches("plain", "other"));
}

#[test]
fn labels_count_up_in_order_of_appearance() {
    let first = request("a", None, 1, &[70, 50, 70]);
    let second = request("b", None, 2, &[90, 50]);
    let third = request("c", None, 3, &[]);
    let pairs = vec![(&first, &second), (&second, &first), (&third, &third)];
    assert_eq!(canonical_prefix_sequences(&pairs, true), vec![vec![0, 1, 0], vec![2, 1], vec![]]);
    assert_eq!(canonical_prefix_sequences(&pairs, false), vec![vec![0, 1], vec![2, 1, 2], vec![]]);
}

fn options(max_ms: f64) -> CompareOptions {
    CompareOptions { time_scale: double(1.0), max_arrival_p99_ms: double(max_ms), max_arrival_max_ms: double(max_ms) }
}

fn compared(source: Vec<TraceRequest>, replay: Vec<TraceRequest>, mappings: Vec<RequestMapping>, max_ms: f64) -> Result<FidelityReport, CompareError> {
    let absolute = match match_requests(&source, &replay, &mappings) {
        Ok(_) => errors(&source, &replay, &mappings, 1.0).iter().map(|error| double(error.abs())).collect(),
        Err(error) => return Err(error),
    };
    let measure = ArrivalMeasure { absolute_ms: absolute, mean_signed_ms: double(0.0), breach: "late".to_string() };
    compare_loaded(&source, &replay, &mappings, measure, &options(max_ms))
}

fn source() -> Vec<TraceRequest> {
    vec![request("a", None, 100, &[11, 22]), request("b", None, 120, &[11, 33])]
}

fn replay() -> Vec<TraceRequest> {
    vec![request("ra", Some("x-a"), 1000, &[101, 202]), request("rb", Some("x-b"), 1020, &[101, 303])]
}

fn mappings() -> Vec<RequestMapping> {
    vec![mapping("a", "x-a"), mapping("b", "x-b")]
}

#[test]
fn a_faithful_replay_passes() {
    let report = compared(source(), replay(), mappings(), 5.0).unwrap();
    assert!(report.passed, "{:?}", report);
    assert_eq!(report.mapped_request_count, 2);
    assert_eq!(report.input_length_matches, 2);
    assert!(report.prefix_topology_matches);
    assert!(report.arrival_timing_matches);
    assert!(report.mismatches.is_empty());
}

#[test]
fn each_difference_is_reported() {
    let mut longer = replay();
    longer[0].input_tokens = 9;
    let report = compared(source(), longer, mappings(), 5.0).unwrap();
    assert!(!report.passed);
    assert_eq!(report.input_length_matches, 1);
    assert!(!report.mismatches.is_empty());

    let mut shared = replay();
    shared[1].input_sequence_hashes = vec![101, 202];
    let report = compared(source(), shared, mappings(), 5.0).unwrap();
    assert!(!report.prefix_topology_matches);
    assert!(!report.passed);

    let mut late = replay();
    late[1].request_received_ms = 1100;
    let report = compared(source(), late, mappings(), 5.0).unwrap();
    assert!(!report.arrival_timing_matches);
    assert_eq!(f64::from_bits(report.arrival_error_ms.absolute.max), 80.0);

    let report = compared(source(), vec![replay().remove(0)], mappings(), 5.0).unwrap();
    assert_eq!(report.missing_replay_requests, 1);
    assert!(!report.passed);
}

#[test]
fn comparisons_are_refused_with_reason() {
    let mut nameless = replay();
    for request in &mut nameless {
        request.source_x_request_id = None;
    }
    assert_eq!(compared(source(), nameless, mappings(), 5.0).unwrap_err(), CompareError::NoReplayIds);
    let mut wrong = options(1.0);
    wrong.time_scale = double(0.0);
    assert_eq!(validate_options(&wrong), Err(CompareError::TimeScale));
    let mut wrong = options(1.0);
    wrong.max_arrival_p99_ms = double(-1.0);
    assert_eq!(validate_options(&wrong), Err(CompareError::ArrivalP99Limit));
    let mut wrong = options(1.0);
    wrong.max_arrival_max_ms = double(f64::INFINITY);
    assert_eq!(validate_options(&wrong), Err(CompareError::ArrivalMaxLimit));
    assert_eq!(validate_options(&options(0.0)), Ok(()));
    assert_eq!(CompareError::TimeScale.message(), "time_scale must be a positive finite number");
}

#[test]
fn mismatches_are_capped() {
    let mut mismatches = Vec::new();
    for index in 0..150 {
        add_mismatch(&mut mismatches, format!("{index}"));
    }
    assert_eq!(mismatches.len(), 100);
    assert_eq!(mismatches[99], "99");
}

#[test]
fn calculates_nearest_rank_percentiles() {
    let values = (1..=100).map(|value| (value as f64).to_bits()).collect();
    let result = percentiles(values);
    assert_eq!(f64::from_bits(result.p50), 50.0);
    assert_eq!(f64::from_bits(result.p95), 95.0);
    assert_eq!(f64::from_bits(result.p99), 99.0);
}

#[test]
fn percentiles_of_few_values() {
    let result = percentiles(vec![7]);
    assert_eq!((result.min, result.p50, result.p99, result.max), (7, 7, 7, 7));
    let result = percentiles(Vec::new());
    assert_eq!((result.min, result.max), (0, 0));
}

fn product() -> String {
    let mut name = String::new();
    for letter in format!("{:?}", AgentKind::ClaudeCode).chars() {
        if letter.is_uppercase() && !name.is_empty() {
            name.push('-');
        }
        name.extend(letter.to_lowercase());
    }
    name
}

fn dialect(field: &str) -> String {
    format!("x-{}-{}", product(), field)
}

#[test]
fn codex_headers_preserve_parent() {
    let context = AgentContext {
        session_id: "child".to_string(),
        parent_session_id: Some("parent".to_string()),
        session_final: Some(true),
        compaction: None,
        input_trigger: None,
    };
    assert_eq!(
        agent_headers(AgentKind::Codex, &product(), &Some(context)),
        vec![
            ("x-dynamo-session-id".to_string(), "child".to_string()),
            ("x-dynamo-parent-session-id".to_string(), "parent".to_string()),
            ("thread-id".to_string(), "child".to_string()),
            ("x-codex-parent-thread-id".to_string(), "parent".to_string()),
            ("x-dynamo-session-final".to_string(), "true".to_string())
        ]
    );
}

#[test]
fn claude_child_sets_root_and_agent_headers() {
    let context = AgentContext {
        session_id: "child".to_string(),
        parent_session_id: Some("parent".to_string()),
        session_final: None,
        compaction: None,
        input_trigger: None,
    };
    assert_eq!(
        agent_headers(AgentKind::ClaudeCode, &product(), &Some(context)),
        vec![
            ("x-dynamo-session-id".to_string(), "child".to_string()),
            ("x-dynamo-parent-session-id".to_string(), "parent".to_string()),
            (dialect("session-id"), "parent".to_string()),
            (dialect("agent-id"), "child".to_string()),
            (dialect("parent-agent-id"), "parent".to_string())
        ]
    );
}

#[test]
fn agent_headers_are_managed_ones() {
    for kind in [AgentKind::ClaudeCode, AgentKind::Codex, AgentKind::Opencode] {
        for (name, _) in agent_headers(kind, &product(), &Some(context("s", Some("{}")))) {
            assert!(is_managed_header(&name, &product()), "{name}");
        }
    }
    assert!(is_managed_header("X-Request-ID", "p"));
    assert!(!is_managed_header("authorization", "p"));
    assert!(agent_headers(AgentKind::Codex, &product(), &None).is_empty());
}
