//! Generated scenarios.

use crate::contracts::{optional_text, texts, TraceManifest, TraceRequest, TraceRequestView};
use crate::scenario::config::ResolvedGeneratorConfig;
use vstd::prelude::*;

verus! {

/// A finished plan.
pub struct GeneratedScenario {
    pub schema_version: u32,
    pub profile_digest_sha256: String,
    pub scenario_digest_sha256: String,
    pub config: ResolvedGeneratorConfig,
    pub session_topology: GeneratedSessionTopology,
    pub sessions: Vec<GeneratedSession>,
    pub nodes: Vec<GeneratedNode>,
    pub tool_parallelism: GeneratedToolParallelism,
    pub compaction_operations: Vec<GeneratedCompactionOperation>,
    pub trace_manifest: TraceManifest,
}

/// How many sessions were configured, and how many came about below them.
#[derive(Debug, Clone, Copy, PartialEq, Eq, Structural)]
pub struct GeneratedSessionTopology {
    pub configured_top_level_sessions: usize,
    pub configured_concurrent_sessions: usize,
    pub generated_subagent_sessions: usize,
}

/// One protocol session.
#[derive(Debug)]
pub struct GeneratedSession {
    pub session_id: String,
    pub parent_session_id: Option<String>,
    pub depth: usize,
    pub top_level_session_index: usize,
    pub top_level_stream_slot: usize,
}

/// Mathematical view of a [`GeneratedSession`].
pub struct SessionView {
    pub session_id: Seq<char>,
    pub parent_session_id: Option<Seq<char>>,
    pub depth: usize,
    pub top_level_session_index: usize,
    pub top_level_stream_slot: usize,
}

impl View for GeneratedSession {
    type V = SessionView;

    open spec fn view(&self) -> SessionView {
        SessionView {
            session_id: self.session_id@,
            parent_session_id: optional_text(self.parent_session_id),
            depth: self.depth,
            top_level_session_index: self.top_level_session_index,
            top_level_stream_slot: self.top_level_stream_slot,
        }
    }
}

/// One planned model request and what it waits for.
#[derive(Debug)]
pub struct GeneratedNode {
    pub node_id: String,
    pub action: String,
    pub dependencies: Vec<usize>,
    pub delay_after_dependencies_ms: u64,
    pub initial_arrival_ms: Option<u64>,
    pub window_epoch: usize,
    pub tool_events: Vec<GeneratedToolEvent>,
    pub spawned_session_ids: Vec<String>,
    pub output_budget_tokens: Option<u32>,
    pub compaction_attempt: Option<GeneratedCompactionAttempt>,
    pub request: TraceRequest,
}

/// Mathematical view of a [`GeneratedNode`].
#[verifier::ext_equal]
pub struct NodeView {
    pub node_id: Seq<char>,
    pub action: Seq<char>,
    pub dependencies: Seq<usize>,
    pub delay_after_dependencies_ms: u64,
    pub initial_arrival_ms: Option<u64>,
    pub window_epoch: usize,
    pub tool_events: Seq<ToolEventView>,
    pub spawned_session_ids: Seq<Seq<char>>,
    pub output_budget_tokens: Option<u32>,
    pub compaction_attempt: Option<AttemptView>,
    pub request: TraceRequestView,
}

impl View for GeneratedNode {
    type V = NodeView;

    open spec fn view(&self) -> NodeView {
        NodeView {
            node_id: self.node_id@,
            action: self.action@,
            dependencies: self.dependencies@,
            delay_after_dependencies_ms: self.delay_after_dependencies_ms,
            initial_arrival_ms: self.initial_arrival_ms,
            window_epoch: self.window_epoch,
            tool_events: event_views(self.tool_events@),
            spawned_session_ids: texts(self.spawned_session_ids@),
            output_budget_tokens: self.output_budget_tokens,
            compaction_attempt: match self.compaction_attempt {
                Some(attempt) => Some(attempt@),
                None => None,
            },
            request: self.request@,
        }
    }
}

/// The views of tool events.
pub open spec fn event_views(events: Seq<GeneratedToolEvent>) -> Seq<ToolEventView> {
    Seq::new(events.len(), |i: int| events[i]@)
}

/// The views of sessions.
pub open spec fn session_views(sessions: Seq<GeneratedSession>) -> Seq<SessionView> {
    Seq::new(sessions.len(), |i: int| sessions[i]@)
}

/// The views of nodes.
pub open spec fn node_views(nodes: Seq<GeneratedNode>) -> Seq<NodeView> {
    Seq::new(nodes.len(), |i: int| nodes[i]@)
}

/// The views of compaction operations.
pub open spec fn operation_views(operations: Seq<GeneratedCompactionOperation>) -> Seq<OperationView> {
    Seq::new(operations.len(), |i: int| operations[i]@)
}

/// What a physical compaction attempt does to the context.
#[derive(Debug, Clone, Copy, PartialEq, Eq, Structural)]
pub enum CompactionExpectedEffect {
    NoMutationAborted,
    ApplyOnce,
    DuplicateNoop,
}

impl CompactionExpectedEffect {
    /// The name that artifacts use.
    pub open spec fn label(self) -> Seq<char> {
        match self {
            CompactionExpectedEffect::NoMutationAborted => "no_mutation_aborted"@,
            CompactionExpectedEffect::ApplyOnce => "apply_once"@,
            CompactionExpectedEffect::DuplicateNoop => "duplicate_noop"@,
        }
    }

    /// The name that artifacts use.
    pub fn name(self) -> (name: &'static str)
        ensures
            name@ == self.label(),
    {
        match self {
            CompactionExpectedEffect::NoMutationAborted => "no_mutation_aborted",
            CompactionExpectedEffect::ApplyOnce => "apply_once",
            CompactionExpectedEffect::DuplicateNoop => "duplicate_noop",
        }
    }
}

/// One physical attempt of a logical compaction.
#[derive(Debug)]
pub struct GeneratedCompactionAttempt {
    pub operation_id: String,
    pub phase: String,
    pub attempt: usize,
    pub expected_effect: CompactionExpectedEffect,
    pub abort_after_ms: Option<u64>,
}

/// Mathematical view of a [`GeneratedCompactionAttempt`].
pub struct AttemptView {
    pub operation_id: Seq<char>,
    pub phase: Seq<char>,
    pub attempt: usize,
    pub expected_effect: CompactionExpectedEffect,
    pub abort_after_ms: Option<u64>,
}

impl View for GeneratedCompactionAttempt {
    type V = AttemptView;

    open spec fn view(&self) -> AttemptView {
        AttemptView {
            operation_id: self.operation_id@,
            phase: self.phase@,
            attempt: self.attempt,
            expected_effect: self.expected_effect,
            abort_after_ms: self.abort_after_ms,
        }
    }
}

/// One logical compaction with its physical attempts.
#[derive(Debug)]
pub struct GeneratedCompactionOperation {
    pub operation_id: String,
    pub session_id: String,
    pub phase: String,
    pub attempts: Vec<usize>,
    pub applied_attempt: usize,
    pub expected_apply_count: usize,
}

/// Mathematical view of a [`GeneratedCompactionOperation`].
#[verifier::ext_equal]
pub struct OperationView {
    pub operation_id: Seq<char>,
    pub session_id: Seq<char>,
    pub phase: Seq<char>,
    pub attempts: Seq<usize>,
    pub applied_attempt: usize,
    pub expected_apply_count: usize,
}

impl View for GeneratedCompactionOperation {
    type V = OperationView;

    open spec fn view(&self) -> OperationView {
        OperationView {
            operation_id: self.operation_id@,
            session_id: self.session_id@,
            phase: self.phase@,
            attempts: self.attempts@,
            applied_attempt: self.applied_attempt,
            expected_apply_count: self.expected_apply_count,
        }
    }
}

/// One sampled tool call.
#[derive(Debug)]
pub struct GeneratedToolEvent {
    pub class: String,
    pub latency_ms: u64,
    pub result_tokens: u64,
    pub failed: bool,
    pub retried: bool,
}

/// Mathematical view of a [`GeneratedToolEvent`].
pub struct ToolEventView {
    pub class: Seq<char>,
    pub latency_ms: u64,
    pub result_tokens: u64,
    pub failed: bool,
    pub retried: bool,
}

impl View for GeneratedToolEvent {
    type V = ToolEventView;

    open spec fn view(&self) -> ToolEventView {
        ToolEventView {
            class: self.class@,
            latency_ms: self.latency_ms,
            result_tokens: self.result_tokens,
            failed: self.failed,
            retried: self.retried,
        }
    }
}

/// Parallelism realized by the sampled tool phases in a scenario. The fractions that reports
/// show are ratios of these numbers: parallel calls to calls, parallel wall time to wall time,
/// and work to wall time, each zero where its denominator is.
#[derive(Debug, Clone, Copy, PartialEq, Eq, Structural)]
pub struct GeneratedToolParallelism {
    pub tool_phases: usize,
    pub parallel_tool_phases: usize,
    pub tool_calls: usize,
    pub parallel_tool_calls: usize,
    pub tool_work_ms: u64,
    pub tool_wall_ms: u64,
    pub parallel_wall_ms: u64,
}

} // verus!
