//! What a plan is: the scenario that a configuration and a list of sampled numbers stand for.

use crate::contracts::{AgentContextView, TraceRequestView};
use crate::digest::{le_bytes, le_number, sha256};
use crate::double::Real;
use crate::numeric::ceil_div;
use crate::scenario::config::{ConfigError, ConfigSums, ResolvedGeneratorConfig};
use crate::scenario::distribution::UIntDistribution;
use crate::scenario::model::{
    AttemptView, CompactionExpectedEffect, NodeView, OperationView, SessionView, ToolEventView,
};
use crate::scenario::source::{sampled, Ask, Draws};
use crate::text::{decimal, decimal_text, hexadecimal};
use vstd::prelude::*;
use vstd::utf8::encode_utf8;

verus! {

/// What follows from the real-valued settings of a configuration, in double arithmetic.
#[derive(Debug, Clone)]
pub struct SamplingTables {
    pub sums: ConfigSums,
    /// For each tool class, how many of the uniform draws fall on it or on one before it.
    pub tool_draws: Vec<u64>,
    /// The context size at which compaction starts.
    pub compaction_trigger_tokens: usize,
}

/// A configuration with its tables.
pub struct Env {
    pub config: ResolvedGeneratorConfig,
    pub tables: SamplingTables,
}

/// Why there is no plan.
#[derive(Debug)]
pub enum PlanError {
    Config { error: ConfigError },
    SegmentTooLong,
    LabelsExhausted,
    TurnsTooMany,
    ToolsTooMany,
    FanoutTooLarge,
    NoCompactionRoom,
    NodesExhausted,
    ArrivalMismatch,
    ForwardDependency,
    InputOverflow,
    TotalOverflow,
    TotalExceeded { limit: u64 },
    OutputTooLarge,
    BudgetTooLarge,
    ZeroOutput,
    NoModelTurn,
    StartupOverflow,
    SessionPrevented { index: usize },
    NoRequests,
    WorkOverflow,
    WallOverflow,
    ParallelWallOverflow,
    InputTotalOverflow,
    OutputTotalOverflow,
    CallsOverflow,
}

impl PlanError {
    /// The words of the error.
    pub open spec fn text(self) -> Seq<char> {
        match self {
            PlanError::Config { error } => error.text(),
            PlanError::SegmentTooLong => "segment token count does not fit usize"@,
            PlanError::LabelsExhausted => "no block label is left for a segment"@,
            PlanError::TurnsTooMany => "turn count does not fit usize"@,
            PlanError::ToolsTooMany => "parallel tool count does not fit usize"@,
            PlanError::FanoutTooLarge => "subagent fanout does not fit usize"@,
            PlanError::NoCompactionRoom => "generated scenario has no room for a compaction attempt"@,
            PlanError::NodesExhausted => "generated scenario reached max_nodes"@,
            PlanError::ArrivalMismatch =>
                "each generated request must have dependencies or one initial arrival"@,
            PlanError::ForwardDependency => "generated request has a forward or missing dependency"@,
            PlanError::InputOverflow => "generated input length overflow"@,
            PlanError::TotalOverflow => "generated total input length overflow"@,
            PlanError::TotalExceeded { limit } => "generated scenario exceeds max_total_input_tokens ("@ + decimal(
                limit as nat,
            ) + ")"@,
            PlanError::OutputTooLarge => "generated output token count does not fit u32"@,
            PlanError::BudgetTooLarge => "generated output budget does not fit u32"@,
            PlanError::ZeroOutput => "generated request output must be greater than zero"@,
            PlanError::NoModelTurn => "generated session has no model turn"@,
            PlanError::StartupOverflow => "session startup timestamp overflow"@,
            PlanError::SessionPrevented { index } => "generation limits prevented top-level session "@ + decimal(
                index as nat,
            ),
            PlanError::NoRequests => "generated scenario contains no requests"@,
            PlanError::WorkOverflow => "generated tool work time overflow"@,
            PlanError::WallOverflow => "generated tool wall time overflow"@,
            PlanError::ParallelWallOverflow => "generated parallel tool wall time overflow"@,
            PlanError::InputTotalOverflow => "generated input token total overflow"@,
            PlanError::OutputTotalOverflow => "generated output token total overflow"@,
            PlanError::CallsOverflow => "generated tool call count overflow"@,
        }
    }

    /// Puts the error in words.
    pub fn message(&self) -> (text: String)
        ensures
            text@ == self.text(),
    {
        match self {
            PlanError::Config { error } => error.message(),
            PlanError::SegmentTooLong => "segment token count does not fit usize".to_string(),
            PlanError::LabelsExhausted => "no block label is left for a segment".to_string(),
            PlanError::TurnsTooMany => "turn count does not fit usize".to_string(),
            PlanError::ToolsTooMany => "parallel tool count does not fit usize".to_string(),
            PlanError::FanoutTooLarge => "subagent fanout does not fit usize".to_string(),
            PlanError::NoCompactionRoom => "generated scenario has no room for a compaction attempt".to_string(),
            PlanError::NodesExhausted => "generated scenario reached max_nodes".to_string(),
            PlanError::ArrivalMismatch =>
                "each generated request must have dependencies or one initial arrival".to_string(),
            PlanError::ForwardDependency => "generated request has a forward or missing dependency".to_string(),
            PlanError::InputOverflow => "generated input length overflow".to_string(),
            PlanError::TotalOverflow => "generated total input length overflow".to_string(),
            PlanError::TotalExceeded { limit } => {
                let mut text = "generated scenario exceeds max_total_input_tokens (".to_string();
                text.append(decimal_text(*limit).as_str());
                text.append(")");
                text
            },
            PlanError::OutputTooLarge => "generated output token count does not fit u32".to_string(),
            PlanError::BudgetTooLarge => "generated output budget does not fit u32".to_string(),
            PlanError::ZeroOutput => "generated request output must be greater than zero".to_string(),
            PlanError::NoModelTurn => "generated session has no model turn".to_string(),
            PlanError::StartupOverflow => "session startup timestamp overflow".to_string(),
            PlanError::SessionPrevented { index } => {
                let mut text = "generation limits prevented top-level session ".to_string();
                text.append(decimal_text(*index as u64).as_str());
                text
            },
            PlanError::NoRequests => "generated scenario contains no requests".to_string(),
            PlanError::WorkOverflow => "generated tool work time overflow".to_string(),
            PlanError::WallOverflow => "generated tool wall time overflow".to_string(),
            PlanError::ParallelWallOverflow => "generated parallel tool wall time overflow".to_string(),
            PlanError::InputTotalOverflow => "generated input token total overflow".to_string(),
            PlanError::OutputTotalOverflow => "generated output token total overflow".to_string(),
            PlanError::CallsOverflow => "generated tool call count overflow".to_string(),
        }
    }
}

/// A plan in the making.
#[verifier::ext_equal]
pub struct Plan {
    /// The blocks that every session starts with.
    pub prefix: Seq<u64>,
    pub sessions: Seq<SessionView>,
    pub nodes: Seq<NodeView>,
    pub operations: Seq<OperationView>,
    /// The block labels given out, by their owners.
    pub labels: Map<Seq<char>, u64>,
    pub total_input_tokens: u64,
    /// What the source of random numbers has been asked for.
    pub asked: Seq<Ask>,
}

/// The context of a session in the making.
#[verifier::ext_equal]
pub struct Window {
    pub session_id: Seq<char>,
    pub parent_session_id: Option<Seq<char>>,
    pub blocks: Seq<u64>,
    pub stable_blocks: nat,
    pub epoch: usize,
}

// ---------------------------------------------------------------------------------------------
// Numbers
// ---------------------------------------------------------------------------------------------

/// Takes the value of a distribution.
pub open spec fn take(d: Draws, p: Plan, distribution: UIntDistribution) -> (u64, Plan) {
    let (value, asked) = sampled(distribution, d, p.asked);
    (value, Plan { asked, ..p })
}

/// Takes a random word.
pub open spec fn take_word(d: Draws, p: Plan) -> (u64, Plan) {
    let asked = p.asked.push(Ask::Word);
    (d.answer(asked), Plan { asked, ..p })
}

/// Takes a random word and tells whether the uniform draw from it lies below `probability`.
pub open spec fn take_chance(d: Draws, p: Plan, probability: Real) -> (bool, Plan) {
    let (word, after) = take_word(d, p);
    (probability.exceeds_draw(word), after)
}

/// What follows a model turn.
#[derive(Debug, Clone, Copy, PartialEq, Eq, Structural)]
pub enum NextAction {
    Text,
    Tool,
    ParallelTools,
    Subagent,
    Swarm,
    Complete,
}

impl NextAction {
    /// The name that artifacts use.
    pub open spec fn label(self) -> Seq<char> {
        match self {
            NextAction::Text => "text"@,
            NextAction::Tool => "tool"@,
            NextAction::ParallelTools => "parallel_tools"@,
            NextAction::Subagent => "subagent"@,
            NextAction::Swarm => "swarm"@,
            NextAction::Complete => "complete"@,
        }
    }

    /// The name that artifacts use.
    pub fn name(self) -> (name: &'static str)
        ensures
            name@ == self.label(),
    {
        match self {
            NextAction::Text => "text",
            NextAction::Tool => "tool",
            NextAction::ParallelTools => "parallel_tools",
            NextAction::Subagent => "subagent",
            NextAction::Swarm => "swarm",
            NextAction::Complete => "complete",
        }
    }
}

/// The action that a random word selects at `depth`: delegation only above the greatest depth,
/// completion only where it is allowed.
pub open spec fn action_for(e: Env, word: u64, depth: nat, allow_completion: bool) -> NextAction {
    let sums = e.tables.sums;
    let delegates = depth < e.config.max_depth;
    let completion = if delegates {
        sums.with_completion
    } else {
        sums.leaf_completion
    };
    if e.config.tool_probability.exceeds_draw(word) {
        NextAction::Tool
    } else if sums.with_parallel.exceeds_draw(word) {
        NextAction::ParallelTools
    } else if delegates && sums.with_subagent.exceeds_draw(word) {
        NextAction::Subagent
    } else if delegates && sums.with_swarm.exceeds_draw(word) {
        NextAction::Swarm
    } else if allow_completion && completion.exceeds_draw(word) {
        NextAction::Complete
    } else {
        NextAction::Text
    }
}

/// The tool class that a random word selects, at or after class `k`.
pub open spec fn tool_from(e: Env, word: u64, k: nat) -> nat
    decreases e.config.tool_classes@.len() - k,
{
    if k + 1 >= e.config.tool_classes@.len() || k >= e.tables.tool_draws@.len() {
        (e.config.tool_classes@.len() - 1) as nat
    } else if word / 2048 < e.tables.tool_draws@[k as int] {
        k
    } else {
        tool_from(e, word, k + 1)
    }
}

// ---------------------------------------------------------------------------------------------
// Labels
// ---------------------------------------------------------------------------------------------

/// The label that an owner asks for with a nonce.
pub open spec fn candidate(seed: u64, owner: Seq<char>, nonce: u64) -> u64 {
    le_number(
        sha256(
            encode_utf8("agent-loadgen/generated-segment/v1"@) + le_bytes(seed) + encode_utf8(owner) + le_bytes(
                nonce,
            ),
        ),
    )
}

/// The labels that are in use.
pub open spec fn labels_in_use(labels: Map<Seq<char>, u64>) -> Set<u64> {
    Set::new(|label: u64| exists|owner: Seq<char>| #[trigger] labels.contains_key(owner) && labels[owner] == label)
}

/// The label of the first nonce, at or after the given one, that is not in use.
pub open spec fn first_free(labels: Map<Seq<char>, u64>, seed: u64, owner: Seq<char>, nonce: nat) -> Option<u64>
    decreases 0x1_0000_0000_0000_0000 - nonce,
{
    if nonce > u64::MAX {
        None
    } else if !labels_in_use(labels).contains(candidate(seed, owner, nonce as u64)) {
        Some(candidate(seed, owner, nonce as u64))
    } else {
        first_free(labels, seed, owner, nonce + 1)
    }
}

/// Gives an owner its label: the one it has, or a free one.
pub open spec fn labelled(e: ResolvedGeneratorConfig, p: Plan, owner: Seq<char>) -> Result<(u64, Plan), PlanError> {
    if p.labels.contains_key(owner) {
        Ok((p.labels[owner], p))
    } else {
        match first_free(p.labels, e.seed, owner, 0) {
            Some(label) => Ok((label, Plan { labels: p.labels.insert(owner, label), ..p })),
            None => Err(PlanError::LabelsExhausted),
        }
    }
}

/// The owner of a block of a segment.
pub open spec fn block_owner(scope: Seq<char>, block: nat) -> Seq<char> {
    scope + ":block:"@ + decimal(block)
}

/// The labels of the first `n` blocks of a segment.
pub open spec fn labelled_blocks(
    e: ResolvedGeneratorConfig,
    p: Plan,
    scope: Seq<char>,
    n: nat,
) -> Result<(Seq<u64>, Plan), PlanError>
    decreases n,
{
    if n == 0 {
        Ok((Seq::empty(), p))
    } else {
        match labelled_blocks(e, p, scope, (n - 1) as nat) {
            Err(error) => Err(error),
            Ok((blocks, q)) => match labelled(e, q, block_owner(scope, (n - 1) as nat)) {
                Err(error) => Err(error),
                Ok((label, r)) => Ok((blocks.push(label), r)),
            },
        }
    }
}

/// A segment of so many tokens, rounded up to whole blocks.
pub open spec fn segment(
    e: ResolvedGeneratorConfig,
    p: Plan,
    scope: Seq<char>,
    tokens: u64,
) -> Result<(Seq<u64>, Plan), PlanError> {
    if tokens > usize::MAX {
        Err(PlanError::SegmentTooLong)
    } else {
        labelled_blocks(e, p, scope, ceil_div(tokens as nat, e.block_size as nat))
    }
}

/// The scope of one part of a session.
pub open spec fn part_scope(session_id: Seq<char>, part: Seq<char>, number: nat) -> Seq<char> {
    "session:"@ + session_id + part + decimal(number)
}

/// The scope of one tool result.
pub open spec fn tool_scope(session_id: Seq<char>, turn: nat, index: nat, class: Seq<char>, failed: bool) -> Seq<
    char,
> {
    "session:"@ + session_id + ":tool:"@ + decimal(turn) + ":"@ + decimal(index) + ":"@ + class + ":"@ + if failed {
        "true"@
    } else {
        "false"@
    }
}

// ---------------------------------------------------------------------------------------------
// Requests
// ---------------------------------------------------------------------------------------------

/// A request in the making.
#[verifier::ext_equal]
pub struct Draft {
    pub dependencies: Seq<usize>,
    pub delay_ms: u64,
    pub arrival_ms: Option<u64>,
    pub action: Seq<char>,
    pub trigger: Seq<char>,
    pub output_tokens: u64,
    pub budget_tokens: Option<u64>,
    pub attempt: Option<AttemptView>,
}

/// The metadata that a compaction request carries, as JSON.
pub open spec fn compaction_metadata(attempt: AttemptView, epoch: nat, pre_tokens: nat) -> Seq<char> {
    "{\"attempt\":"@ + decimal(attempt.attempt as nat) + ",\"expected_effect\":\""@ + attempt.expected_effect.label()
        + "\",\"operation_id\":\""@ + attempt.operation_id + "\",\"output_budget_tokens\":null,\"phase\":\""@
        + attempt.phase + "\",\"pre_tokens\":"@ + decimal(pre_tokens) + ",\"window_epoch\":"@ + decimal(epoch) + "}"@
}

/// What is wrong with a request.
pub open spec fn draft_failure(e: ResolvedGeneratorConfig, p: Plan, w: Window, draft: Draft) -> Option<PlanError> {
    let input_tokens = w.blocks.len() * e.block_size;
    if p.nodes.len() >= e.max_nodes {
        Some(PlanError::NodesExhausted)
    } else if (draft.dependencies.len() == 0) != draft.arrival_ms is Some {
        Some(PlanError::ArrivalMismatch)
    } else if exists|k: int| 0 <= k < draft.dependencies.len() && #[trigger] draft.dependencies[k] >= p.nodes.len() {
        Some(PlanError::ForwardDependency)
    } else if input_tokens > usize::MAX {
        Some(PlanError::InputOverflow)
    } else if p.total_input_tokens + input_tokens > u64::MAX {
        Some(PlanError::TotalOverflow)
    } else if p.total_input_tokens + input_tokens > e.max_total_input_tokens {
        Some(PlanError::TotalExceeded { limit: e.max_total_input_tokens })
    } else if draft.output_tokens > u32::MAX {
        Some(PlanError::OutputTooLarge)
    } else if draft.budget_tokens is Some && draft.budget_tokens->0 > u32::MAX {
        Some(PlanError::BudgetTooLarge)
    } else if draft.output_tokens == 0 && draft.attempt is None {
        Some(PlanError::ZeroOutput)
    } else {
        None
    }
}

/// The node that a request becomes.
pub open spec fn drafted_node(e: ResolvedGeneratorConfig, p: Plan, w: Window, draft: Draft) -> NodeView {
    let ordinal = p.nodes.len();
    let input_tokens = w.blocks.len() * e.block_size;
    NodeView {
        node_id: "node-"@ + decimal(ordinal),
        action: draft.action,
        dependencies: draft.dependencies,
        delay_after_dependencies_ms: draft.delay_ms,
        initial_arrival_ms: draft.arrival_ms,
        window_epoch: w.epoch,
        tool_events: Seq::empty(),
        spawned_session_ids: Seq::empty(),
        output_budget_tokens: match draft.budget_tokens {
            Some(budget) => Some(budget as u32),
            None => None,
        },
        compaction_attempt: draft.attempt,
        request: TraceRequestView {
            ordinal: ordinal as usize,
            source_request_id: "generated-"@ + hexadecimal(e.seed as nat, 16) + "-"@ + decimal(ordinal),
            source_x_request_id: None,
            source_model: None,
            input_tokens: input_tokens as usize,
            output_tokens: draft.output_tokens as u32,
            request_received_ms: match draft.arrival_ms {
                Some(arrival) => arrival,
                None => 0,
            },
            trace_block_size: e.block_size,
            input_sequence_hashes: w.blocks,
            agent_context: Some(
                AgentContextView {
                    session_id: w.session_id,
                    parent_session_id: w.parent_session_id,
                    session_final: None,
                    compaction: match draft.attempt {
                        Some(attempt) => Some(
                            compaction_metadata(attempt, w.epoch as nat, input_tokens as nat),
                        ),
                        None => None,
                    },
                    input_trigger: Some(draft.trigger),
                },
            ),
        },
    }
}

/// Adds a request.
pub open spec fn requested(
    e: ResolvedGeneratorConfig,
    p: Plan,
    w: Window,
    draft: Draft,
) -> Result<(usize, Plan), PlanError> {
    match draft_failure(e, p, w, draft) {
        Some(error) => Err(error),
        None => Ok(
            (
                p.nodes.len() as usize,
                Plan {
                    nodes: p.nodes.push(drafted_node(e, p, w, draft)),
                    total_input_tokens: (p.total_input_tokens + w.blocks.len() * e.block_size) as u64,
                    ..p
                },
            ),
        ),
    }
}

// ---------------------------------------------------------------------------------------------
// Compaction
// ---------------------------------------------------------------------------------------------

/// The course of a session: the plan, its context, and what its next request waits for.
#[verifier::ext_equal]
pub struct Course {
    pub plan: Plan,
    pub window: Window,
    pub dependencies: Seq<usize>,
    pub delay_ms: u64,
    pub trigger: Seq<char>,
    /// The latest request of the session.
    pub latest: Option<usize>,
}

/// The context has reached the size at which compaction starts.
pub open spec fn compaction_due(e: Env, w: Window) -> bool {
    e.config.compaction_enabled && w.blocks.len() * e.config.block_size >= e.tables.compaction_trigger_tokens
}

/// The identity of a compaction.
pub open spec fn operation_name(e: ResolvedGeneratorConfig, w: Window, turn: nat) -> Seq<char> {
    "compaction-"@ + hexadecimal(e.seed as nat, 16) + "-"@ + w.session_id + "-"@ + decimal(w.epoch as nat) + "-"@
        + decimal(turn)
}

/// The effects of the physical attempts: perhaps an aborted one, the one that applies, perhaps a
/// duplicate.
pub open spec fn attempt_effects(aborts: bool, duplicates: bool) -> Seq<CompactionExpectedEffect> {
    let first = if aborts {
        seq![CompactionExpectedEffect::NoMutationAborted]
    } else {
        Seq::empty()
    };
    let applied = first.push(CompactionExpectedEffect::ApplyOnce);
    if duplicates {
        applied.push(CompactionExpectedEffect::DuplicateNoop)
    } else {
        applied
    }
}

/// Adds the first `n` physical attempts, each one after the one before it.
pub open spec fn attempts(
    d: Draws,
    e: ResolvedGeneratorConfig,
    c: Course,
    operation: Seq<char>,
    arrival_ms: Option<u64>,
    summary_tokens: u64,
    effects: Seq<CompactionExpectedEffect>,
    n: nat,
) -> Result<(Seq<usize>, Plan), PlanError>
    decreases n,
{
    if n == 0 {
        Ok((Seq::empty(), c.plan))
    } else {
        match attempts(d, e, c, operation, arrival_ms, summary_tokens, effects, (n - 1) as nat) {
            Err(error) => Err(error),
            Ok((nodes, p)) => {
                let effect = effects[n - 1];
                let (abort_after_ms, q) = if effect == CompactionExpectedEffect::NoMutationAborted {
                    let (delay, q) = take(d, p, e.compaction_abort_after_ms);
                    (Some(delay), q)
                } else {
                    (None, p)
                };
                let draft = Draft {
                    dependencies: if n == 1 {
                        c.dependencies
                    } else {
                        seq![nodes.last()]
                    },
                    delay_ms: if n == 1 {
                        c.delay_ms
                    } else {
                        0
                    },
                    arrival_ms: if n == 1 {
                        arrival_ms
                    } else {
                        None
                    },
                    action: "compaction_attempt"@,
                    trigger: "other"@,
                    output_tokens: if effect == CompactionExpectedEffect::ApplyOnce {
                        summary_tokens
                    } else {
                        0
                    },
                    budget_tokens: None,
                    attempt: Some(
                        AttemptView {
                            operation_id: operation,
                            phase: "pre_turn"@,
                            attempt: n as usize,
                            expected_effect: effect,
                            abort_after_ms,
                        },
                    ),
                };
                match requested(e, q, c.window, draft) {
                    Err(error) => Err(error),
                    Ok((node, r)) => Ok((nodes.push(node), r)),
                }
            },
        }
    }
}

/// How many physical attempts a compaction may have.
pub open spec fn attempt_limit(e: ResolvedGeneratorConfig, p: Plan) -> int {
    if e.max_nodes - p.nodes.len() < e.compaction_max_attempts {
        e.max_nodes - p.nodes.len()
    } else {
        e.compaction_max_attempts as int
    }
}

/// Adds a compaction with its physical attempts.
#[verifier::opaque]
pub open spec fn operated(
    d: Draws,
    e: ResolvedGeneratorConfig,
    c: Course,
    turn: nat,
    arrival_ms: Option<u64>,
    summary_tokens: u64,
) -> Result<(Seq<usize>, Plan), PlanError> {
    let limit = attempt_limit(e, c.plan);
    if limit <= 0 {
        Err(PlanError::NoCompactionRoom)
    } else {
        let (aborts, p) = if limit >= 2 {
            take_chance(d, c.plan, e.compaction_abort_probability)
        } else {
            (false, c.plan)
        };
        let (duplicates, q) = if attempt_effects(aborts, false).len() < limit {
            take_chance(d, p, e.compaction_retry_probability)
        } else {
            (false, p)
        };
        let effects = attempt_effects(aborts, duplicates);
        let operation = operation_name(e, c.window, turn);
        match attempts(
            d,
            e,
            Course { plan: q, ..c },
            operation,
            arrival_ms,
            summary_tokens,
            effects,
            effects.len(),
        ) {
            Err(error) => Err(error),
            Ok((nodes, r)) => Ok(
                (
                    nodes,
                    Plan {
                        operations: r.operations.push(
                            OperationView {
                                operation_id: operation,
                                session_id: c.window.session_id,
                                phase: "pre_turn"@,
                                attempts: nodes,
                                applied_attempt: if aborts {
                                    2
                                } else {
                                    1
                                },
                                expected_apply_count: 1,
                            },
                        ),
                        ..r
                    },
                ),
            ),
        }
    }
}

/// How many recent blocks a compaction keeps.
pub open spec fn retained_blocks(e: ResolvedGeneratorConfig, w: Window) -> nat {
    let wanted = ceil_div(e.retained_recent_tokens as nat, e.block_size as nat);
    let history = (w.blocks.len() - w.stable_blocks) as nat;
    if wanted < history {
        wanted
    } else {
        history
    }
}

/// The context after a compaction: the stable prefix, the summary, and recent blocks.
pub open spec fn compacted(
    e: ResolvedGeneratorConfig,
    p: Plan,
    w: Window,
    turn: nat,
    summary_tokens: u64,
) -> Result<(Window, Plan), PlanError> {
    let recent = w.blocks.skip(w.blocks.len() - retained_blocks(e, w));
    match segment(e, p, part_scope(w.session_id, ":summary:"@, turn), summary_tokens) {
        Err(error) => Err(error),
        Ok((summary, q)) => Ok(
            (
                Window {
                    blocks: w.blocks.take(w.stable_blocks as int) + summary + recent,
                    epoch: (w.epoch + 1) as usize,
                    ..w
                },
                q,
            ),
        ),
    }
}

/// The arrival time holds for the first request of a session only.
pub open spec fn first_arrival(c: Course, arrival_ms: Option<u64>) -> Option<u64> {
    if c.latest is None {
        arrival_ms
    } else {
        None
    }
}

/// Compacts the context before a turn where that is due.
#[verifier::opaque]
pub open spec fn maybe_compacted(
    d: Draws,
    e: Env,
    c: Course,
    turn: nat,
    arrival_ms: Option<u64>,
) -> Result<Course, PlanError> {
    if !compaction_due(e, c.window) {
        Ok(c)
    } else {
        let (prompt_tokens, p) = take(d, c.plan, e.config.summary_input_tokens);
        match segment(
            e.config,
            p,
            part_scope(c.window.session_id, ":compaction-prompt:"@, turn),
            prompt_tokens,
        ) {
            Err(error) => Err(error),
            Ok((prompt, q)) => {
                let (summary_tokens, r) = take(d, q, e.config.summary_output_tokens);
                let prompted = Window { blocks: c.window.blocks + prompt, ..c.window };
                match operated(
                    d,
                    e.config,
                    Course { plan: r, window: prompted, ..c },
                    turn,
                    first_arrival(c, arrival_ms),
                    summary_tokens,
                ) {
                    Err(error) => Err(error),
                    Ok((nodes, s)) => match compacted(e.config, s, c.window, turn, summary_tokens) {
                        Err(error) => Err(error),
                        Ok((window, t)) => Ok(
                            Course {
                                plan: t,
                                window,
                                dependencies: seq![nodes.last()],
                                delay_ms: 0,
                                trigger: "other"@,
                                latest: Some(nodes.last()),
                            },
                        ),
                    },
                }
            },
        }
    }
}

// ---------------------------------------------------------------------------------------------
// Turns
// ---------------------------------------------------------------------------------------------

/// Appends a segment to the context.
pub open spec fn appended(
    e: ResolvedGeneratorConfig,
    p: Plan,
    w: Window,
    scope: Seq<char>,
    tokens: u64,
) -> Result<(Window, Plan), PlanError> {
    match segment(e, p, scope, tokens) {
        Err(error) => Err(error),
        Ok((blocks, q)) => Ok((Window { blocks: w.blocks + blocks, ..w }, q)),
    }
}

/// The model request of a turn and the answer that it adds to the context.
#[verifier::opaque]
pub open spec fn answered(
    d: Draws,
    e: Env,
    c: Course,
    turn: nat,
    turns: nat,
    depth: nat,
    arrival_ms: Option<u64>,
) -> Result<(Course, usize, NextAction), PlanError> {
    let (output_tokens, p) = take(d, c.plan, e.config.output_tokens);
    let minimum = if turns < 2 {
        turns
    } else {
        2
    };
    let (action, q) = if turn + 1 == turns {
        (NextAction::Complete, p)
    } else {
        let (word, q) = take_word(d, p);
        (action_for(e, word, depth, turn + 1 >= minimum), q)
    };
    let draft = Draft {
        dependencies: c.dependencies,
        delay_ms: c.delay_ms,
        arrival_ms: first_arrival(c, arrival_ms),
        action: action.label(),
        trigger: c.trigger,
        output_tokens,
        budget_tokens: Some(output_tokens),
        attempt: None,
    };
    match requested(e.config, q, c.window, draft) {
        Err(error) => Err(error),
        Ok((node, r)) => match appended(
            e.config,
            r,
            c.window,
            part_scope(c.window.session_id, ":assistant:"@, turn),
            output_tokens,
        ) {
            Err(error) => Err(error),
            Ok((window, s)) => Ok(
                (
                    Course {
                        plan: s,
                        window,
                        dependencies: seq![node],
                        delay_ms: c.delay_ms,
                        trigger: c.trigger,
                        latest: Some(node),
                    },
                    node,
                    action,
                ),
            ),
        },
    }
}

/// A user message follows a text answer.
#[verifier::opaque]
pub open spec fn after_text(d: Draws, e: Env, c: Course, turn: nat, node: usize) -> Result<Course, PlanError> {
    let (user_tokens, p) = take(d, c.plan, e.config.user_tokens);
    match appended(e.config, p, c.window, part_scope(c.window.session_id, ":user:"@, turn + 1), user_tokens) {
        Err(error) => Err(error),
        Ok((window, q)) => {
            let (delay_ms, r) = take(d, q, e.config.think_time_ms);
            Ok(
                Course {
                    plan: r,
                    window,
                    dependencies: seq![node],
                    delay_ms,
                    trigger: "user_message"@,
                    latest: c.latest,
                },
            )
        },
    }
}

/// The sum, or the largest number.
pub open spec fn saturated(a: u64, b: u64) -> u64 {
    if a + b > u64::MAX {
        u64::MAX
    } else {
        (a + b) as u64
    }
}

/// Samples one tool call: its class, latency and result size, whether it fails, and whether a
/// failed call is retried, which adds one more latency and result.
pub open spec fn tool_call(d: Draws, e: Env, p: Plan) -> (ToolEventView, Plan) {
    let (word, p1) = take_word(d, p);
    let class = e.config.tool_classes@[tool_from(e, word, 0) as int];
    let (latency, p2) = take(d, p1, class.latency_ms);
    let (result, p3) = take(d, p2, class.result_tokens);
    let (failed, p4) = take_chance(d, p3, class.error_probability);
    let (retried, p5) = if failed {
        take_chance(d, p4, e.config.retry_probability)
    } else {
        (false, p4)
    };
    if retried {
        let (more_latency, p6) = take(d, p5, class.latency_ms);
        let (more_result, p7) = take(d, p6, class.result_tokens);
        (
            ToolEventView {
                class: class.name@,
                latency_ms: saturated(latency, more_latency),
                result_tokens: saturated(result, more_result),
                failed,
                retried,
            },
            p7,
        )
    } else {
        (ToolEventView { class: class.name@, latency_ms: latency, result_tokens: result, failed, retried }, p5)
    }
}

/// The first `n` calls of a tool phase: the events, the longest latency, and the course so far.
pub open spec fn tool_calls(
    d: Draws,
    e: Env,
    c: Course,
    turn: nat,
    n: nat,
) -> Result<(Seq<ToolEventView>, u64, Course), PlanError>
    decreases n,
{
    if n == 0 {
        Ok((Seq::empty(), 0, c))
    } else {
        match tool_calls(d, e, c, turn, (n - 1) as nat) {
            Err(error) => Err(error),
            Ok((events, longest, now)) => {
                let (event, p) = tool_call(d, e, now.plan);
                match appended(
                    e.config,
                    p,
                    now.window,
                    tool_scope(now.window.session_id, turn, (n - 1) as nat, event.class, event.failed),
                    event.result_tokens,
                ) {
                    Err(error) => Err(error),
                    Ok((window, q)) => Ok(
                        (
                            events.push(event),
                            if event.latency_ms > longest {
                                event.latency_ms
                            } else {
                                longest
                            },
                            Course { plan: q, window, ..now },
                        ),
                    ),
                }
            },
        }
    }
}

/// Tool results follow a tool answer after the longest of the calls.
#[verifier::opaque]
pub open spec fn after_tools(
    d: Draws,
    e: Env,
    c: Course,
    turn: nat,
    node: usize,
    parallel: bool,
) -> Result<Course, PlanError> {
    let (sampled_count, p) = if parallel {
        take(d, c.plan, e.config.parallel_count)
    } else {
        (1, c.plan)
    };
    if sampled_count > usize::MAX {
        Err(PlanError::ToolsTooMany)
    } else {
        let count = if parallel && sampled_count < 2 {
            2
        } else {
            sampled_count as nat
        };
        match tool_calls(d, e, Course { plan: p, ..c }, turn, count) {
            Err(error) => Err(error),
            Ok((events, longest, now)) => Ok(
                Course {
                    plan: Plan {
                        nodes: now.plan.nodes.update(
                            node as int,
                            NodeView { tool_events: events, ..now.plan.nodes[node as int] },
                        ),
                        ..now.plan
                    },
                    window: now.window,
                    dependencies: seq![node],
                    delay_ms: longest,
                    trigger: "tool_result"@,
                    latest: now.latest,
                },
            ),
        }
    }
}

/// Where a session stands: how deep, when it arrives, and in which tree and stream.
#[derive(Debug, Clone, Copy)]
pub struct Place {
    pub depth: usize,
    pub arrival_ms: Option<u64>,
    pub top_level_session_index: usize,
    pub top_level_stream_slot: usize,
}

/// How many more levels of children fit below `depth`.
pub open spec fn room(e: Env, depth: usize) -> nat {
    if depth < e.config.max_depth {
        (e.config.max_depth - depth) as nat
    } else {
        0
    }
}

/// Plans the first `n` children of a node: their last requests, their identifiers, and the plan.
#[verifier::opaque]
pub open spec fn children(
    d: Draws,
    e: Env,
    p: Plan,
    place: Place,
    session_id: Seq<char>,
    node: usize,
    n: nat,
) -> Result<(Seq<usize>, Seq<Seq<char>>, Plan), PlanError>
    decreases room(e, place.depth), 0nat, n,
{
    if n == 0 || place.depth >= e.config.max_depth {
        Ok((Seq::empty(), Seq::empty(), p))
    } else {
        match children(d, e, p, place, session_id, node, (n - 1) as nat) {
            Err(error) => Err(error),
            Ok((finals, ids, q)) => {
                let (delay_ms, r) = take(d, q, e.config.spawn_delay_ms);
                let child = Place { depth: (place.depth + 1) as usize, arrival_ms: None, ..place };
                match session(d, e, r, child, Some(session_id), seq![node], delay_ms) {
                    Err(error) => Err(error),
                    Ok((None, s)) => Ok((finals, ids, s)),
                    Ok((Some(last), s)) => Ok(
                        (finals.push(last), ids.push(s.sessions[r.sessions.len() as int].session_id), s),
                    ),
                }
            },
        }
    }
}

/// How many children a delegation asks for and gets.
pub open spec fn child_count(e: Env, p: Plan, requested: nat) -> nat {
    let available = if p.sessions.len() < e.config.max_sessions {
        (e.config.max_sessions - p.sessions.len()) as nat
    } else {
        0
    };
    if requested < available {
        requested
    } else {
        available
    }
}

/// Children follow a delegating answer. A blocking parent waits for all of them; another one
/// goes on.
#[verifier::opaque]
pub open spec fn after_delegation(
    d: Draws,
    e: Env,
    c: Course,
    place: Place,
    turn: nat,
    node: usize,
    swarm: bool,
) -> Result<Course, PlanError>
    decreases room(e, place.depth), 1nat, 0nat,
{
    let (sampled_count, p) = if swarm {
        take(d, c.plan, e.config.fanout)
    } else {
        (1, c.plan)
    };
    if sampled_count > usize::MAX {
        Err(PlanError::FanoutTooLarge)
    } else {
        let wanted = if swarm && sampled_count < 2 {
            2
        } else {
            sampled_count as nat
        };
        let (blocking, q) = take_chance(d, p, e.config.blocking_probability);
        match children(d, e, q, place, c.window.session_id, node, child_count(e, p, wanted)) {
            Err(error) => Err(error),
            Ok((finals, ids, r)) => {
                let spawned = Plan {
                    nodes: r.nodes.update(
                        node as int,
                        NodeView { spawned_session_ids: ids, ..r.nodes[node as int] },
                    ),
                    ..r
                };
                let (join_tokens, s) = take(d, spawned, e.config.tool_result_tokens);
                match appended(
                    e.config,
                    s,
                    c.window,
                    part_scope(c.window.session_id, ":join:"@, turn),
                    join_tokens,
                ) {
                    Err(error) => Err(error),
                    Ok((window, t)) => {
                        let (delay_ms, u) = take(d, t, e.config.spawn_delay_ms);
                        Ok(
                            Course {
                                plan: u,
                                window,
                                dependencies: if blocking && finals.len() > 0 {
                                    finals
                                } else {
                                    seq![node]
                                },
                                delay_ms,
                                trigger: "tool_result"@,
                                latest: c.latest,
                            },
                        )
                    },
                }
            },
        }
    }
}

/// One turn of a session; the second part tells whether the session is complete.
#[verifier::opaque]
pub open spec fn one_turn(
    d: Draws,
    e: Env,
    c: Course,
    place: Place,
    turn: nat,
    turns: nat,
) -> Result<(Course, bool), PlanError>
    decreases room(e, place.depth), 2nat, 0nat,
{
    match maybe_compacted(d, e, c, turn, place.arrival_ms) {
        Err(error) => Err(error),
        Ok(ready) => match answered(d, e, ready, turn, turns, place.depth as nat, place.arrival_ms) {
            Err(error) => Err(error),
            Ok((now, node, action)) => {
                let next = match action {
                    NextAction::Complete => Ok(now),
                    NextAction::Text => after_text(d, e, now, turn, node),
                    NextAction::Tool => after_tools(d, e, now, turn, node, false),
                    NextAction::ParallelTools => after_tools(d, e, now, turn, node, true),
                    NextAction::Subagent => after_delegation(d, e, now, place, turn, node, false),
                    NextAction::Swarm => after_delegation(d, e, now, place, turn, node, true),
                };
                match next {
                    Err(error) => Err(error),
                    Ok(after) => Ok((after, action == NextAction::Complete)),
                }
            },
        },
    }
}

/// The turns of a session from a given one on, while there is room for requests.
#[verifier::opaque]
pub open spec fn turns_from(
    d: Draws,
    e: Env,
    c: Course,
    place: Place,
    turn: nat,
    turns: nat,
) -> Result<Course, PlanError>
    decreases room(e, place.depth), 3nat, turns - turn,
{
    if turn >= turns || c.plan.nodes.len() >= e.config.max_nodes {
        Ok(c)
    } else {
        match one_turn(d, e, c, place, turn, turns) {
            Err(error) => Err(error),
            Ok((after, complete)) => if complete {
                Ok(after)
            } else {
                turns_from(d, e, after, place, turn + 1, turns)
            },
        }
    }
}

/// The identifier of a session.
pub open spec fn session_name(e: ResolvedGeneratorConfig, index: nat) -> Seq<char> {
    "generated-"@ + hexadecimal(e.seed as nat, 16) + "-session-"@ + decimal(index)
}

/// Opens a session: its entry, its stable context, and its first user message.
#[verifier::opaque]
pub open spec fn opened(
    d: Draws,
    e: Env,
    p: Plan,
    place: Place,
    parent: Option<Seq<char>>,
    dependencies: Seq<usize>,
    delay_ms: u64,
) -> Result<Course, PlanError> {
    let name = session_name(e.config, p.sessions.len());
    let entered = Plan {
        sessions: p.sessions.push(
            SessionView {
                session_id: name,
                parent_session_id: parent,
                depth: place.depth,
                top_level_session_index: place.top_level_session_index,
                top_level_stream_slot: place.top_level_stream_slot,
            },
        ),
        ..p
    };
    let (repository_tokens, p1) = take(d, entered, e.config.repository_tokens);
    let (session_tokens, p2) = take(d, p1, e.config.session_tokens);
    let bare = Window {
        session_id: name,
        parent_session_id: parent,
        blocks: p.prefix,
        stable_blocks: 0,
        epoch: 0,
    };
    let repository = "root:"@ + decimal(place.top_level_session_index as nat) + ":repository"@;
    match appended(e.config, p2, bare, repository, repository_tokens) {
        Err(error) => Err(error),
        Ok((w3, p3)) => match appended(e.config, p3, w3, "session:"@ + name + ":environment"@, session_tokens) {
            Err(error) => Err(error),
            Ok((w4, p4)) => {
                let stable = Window { stable_blocks: w4.blocks.len(), ..w4 };
                let (user_tokens, p5) = take(d, p4, e.config.user_tokens);
                match appended(e.config, p5, stable, part_scope(name, ":user:"@, 0), user_tokens) {
                    Err(error) => Err(error),
                    Ok((window, p6)) => Ok(
                        Course {
                            plan: p6,
                            window,
                            dependencies,
                            delay_ms,
                            trigger: "user_message"@,
                            latest: None,
                        },
                    ),
                }
            },
        },
    }
}

/// Plans a session with all of its descendants: its last request, or nothing where the limits
/// leave no room for it.
#[verifier::opaque]
pub open spec fn session(
    d: Draws,
    e: Env,
    p: Plan,
    place: Place,
    parent: Option<Seq<char>>,
    dependencies: Seq<usize>,
    delay_ms: u64,
) -> Result<(Option<usize>, Plan), PlanError>
    decreases room(e, place.depth), 4nat, 0nat,
{
    if p.sessions.len() >= e.config.max_sessions || p.nodes.len() >= e.config.max_nodes {
        Ok((None, p))
    } else {
        match opened(d, e, p, place, parent, dependencies, delay_ms) {
            Err(error) => Err(error),
            Ok(c) => {
                let (turns, q) = take(
                    d,
                    c.plan,
                    if place.depth == 0 {
                        e.config.turns
                    } else {
                        e.config.subagent_turns
                    },
                );
                if turns > usize::MAX {
                    Err(PlanError::TurnsTooMany)
                } else {
                    match turns_from(d, e, Course { plan: q, ..c }, place, 0, turns as nat) {
                        Err(error) => Err(error),
                        Ok(done) => match done.latest {
                            None => Err(PlanError::NoModelTurn),
                            Some(last) => Ok((Some(last), done.plan)),
                        },
                    }
                }
            },
        }
    }
}

/// Plans the first `n` top-level sessions: the last request of each stream, and the plan. Streams
/// take turns; a stream's first session arrives at a set time, a later one follows the one
/// before it.
#[verifier::opaque]
pub open spec fn top_level(d: Draws, e: Env, p: Plan, n: nat) -> Result<(Seq<Option<usize>>, Plan), PlanError>
    decreases n,
{
    if n == 0 {
        Ok((Seq::new(e.config.concurrent_sessions as nat, |i: int| None), p))
    } else {
        match top_level(d, e, p, (n - 1) as nat) {
            Err(error) => Err(error),
            Ok((streams, q)) => {
                let slot = (n - 1) % (e.config.concurrent_sessions as int);
                let arrival = slot * e.config.startup_interval_ms;
                if streams[slot] is None && arrival > u64::MAX {
                    Err(PlanError::StartupOverflow)
                } else {
                    let (delay_ms, r) = if streams[slot] is Some {
                        take(d, q, e.config.restart_delay_ms)
                    } else {
                        (0, q)
                    };
                    let dependencies = match streams[slot] {
                        Some(last) => seq![last],
                        None => Seq::empty(),
                    };
                    let place = Place {
                        depth: 0,
                        arrival_ms: match streams[slot] {
                            Some(_) => None,
                            None => Some(arrival as u64),
                        },
                        top_level_session_index: (n - 1) as usize,
                        top_level_stream_slot: slot as usize,
                    };
                    match session(d, e, r, place, None, dependencies, delay_ms) {
                        Err(error) => Err(error),
                        Ok((None, s)) => Err(PlanError::SessionPrevented { index: (n - 1) as usize }),
                        Ok((Some(last), s)) => Ok((streams.update(slot, Some(last)), s)),
                    }
                }
            },
        }
    }
}

/// The empty plan.
pub open spec fn blank_plan() -> Plan {
    Plan {
        prefix: Seq::empty(),
        sessions: Seq::empty(),
        nodes: Seq::empty(),
        operations: Seq::empty(),
        labels: Map::empty(),
        total_input_tokens: 0,
        asked: Seq::empty(),
    }
}

/// Starts a plan with the blocks that every session shares: system prompt and tool catalog.
pub open spec fn started(d: Draws, e: ResolvedGeneratorConfig) -> Result<Plan, PlanError> {
    let (system_tokens, p) = take(d, blank_plan(), e.system_prefix_tokens);
    let (tool_tokens, q) = take(d, p, e.tool_catalog_tokens);
    match segment(e, q, "shared:system"@, system_tokens) {
        Err(error) => Err(error),
        Ok((system, r)) => match segment(e, r, "shared:tools"@, tool_tokens) {
            Err(error) => Err(error),
            Ok((tools, s)) => Ok(Plan { prefix: system + tools, ..s }),
        },
    }
}

/// The plan for the sampled numbers `d`.
pub open spec fn planned(d: Draws, e: Env) -> Result<Plan, PlanError> {
    match started(d, e.config) {
        Err(error) => Err(error),
        Ok(p) => match top_level(d, e, p, e.config.num_sessions as nat) {
            Err(error) => Err(error),
            Ok((_, q)) => Ok(q),
        },
    }
}

pub(crate) proof fn lemma_children_unfold(
    d: Draws,
    e: Env,
    p: Plan,
    place: Place,
    session_id: Seq<char>,
    node: usize,
    n: nat,
)
    ensures
        children(d, e, p, place, session_id, node, n) == ({
            if n == 0 || place.depth >= e.config.max_depth {
                Ok((Seq::empty(), Seq::empty(), p))
            } else {
                match children(d, e, p, place, session_id, node, (n - 1) as nat) {
                    Err(error) => Err(error),
                    Ok((finals, ids, q)) => {
                        let (delay_ms, r) = take(d, q, e.config.spawn_delay_ms);
                        let child = Place { depth: (place.depth + 1) as usize, arrival_ms: None, ..place };
                        match session(d, e, r, child, Some(session_id), seq![node], delay_ms) {
                            Err(error) => Err(error),
                            Ok((None, s)) => Ok((finals, ids, s)),
                            Ok((Some(last), s)) => Ok(
                                (finals.push(last), ids.push(s.sessions[r.sessions.len() as int].session_id), s),
                            ),
                        }
                    },
                }
            }
        }),
{
    reveal(children);
    reveal(session);
}

pub(crate) broadcast proof fn lemma_after_delegation_unfold(
    d: Draws,
    e: Env,
    c: Course,
    place: Place,
    turn: nat,
    node: usize,
    swarm: bool,
)
    ensures
        #[trigger] after_delegation(d, e, c, place, turn, node, swarm) == ({
            let (sampled_count, p) = if swarm {
                take(d, c.plan, e.config.fanout)
            } else {
                (1, c.plan)
            };
            if sampled_count > usize::MAX {
                Err(PlanError::FanoutTooLarge)
            } else {
                let wanted = if swarm && sampled_count < 2 {
                    2
                } else {
                    sampled_count as nat
                };
                let (blocking, q) = take_chance(d, p, e.config.blocking_probability);
                match children(d, e, q, place, c.window.session_id, node, child_count(e, p, wanted)) {
                    Err(error) => Err(error),
                    Ok((finals, ids, r)) => {
                        let spawned = Plan {
                            nodes: r.nodes.update(
                                node as int,
                                NodeView { spawned_session_ids: ids, ..r.nodes[node as int] },
                            ),
                            ..r
                        };
                        let (join_tokens, s) = take(d, spawned, e.config.tool_result_tokens);
                        match appended(
                            e.config,
                            s,
                            c.window,
                            part_scope(c.window.session_id, ":join:"@, turn),
                            join_tokens,
                        ) {
                            Err(error) => Err(error),
                            Ok((window, t)) => {
                                let (delay_ms, u) = take(d, t, e.config.spawn_delay_ms);
                                Ok(
                                    Course {
                                        plan: u,
                                        window,
                                        dependencies: if blocking && finals.len() > 0 {
                                            finals
                                        } else {
                                            seq![node]
                                        },
                                        delay_ms,
                                        trigger: "tool_result"@,
                                        latest: c.latest,
                                    },
                                )
                            },
                        }
                    },
                }
            }
        }),
{
    reveal(after_delegation);
    reveal(children);
}

pub(crate) broadcast proof fn lemma_one_turn_unfold(
    d: Draws,
    e: Env,
    c: Course,
    place: Place,
    turn: nat,
    turns: nat,
)
    ensures
        #[trigger] one_turn(d, e, c, place, turn, turns) == ({
            match maybe_compacted(d, e, c, turn, place.arrival_ms) {
                Err(error) => Err(error),
                Ok(ready) => match answered(d, e, ready, turn, turns, place.depth as nat, place.arrival_ms) {
                    Err(error) => Err(error),
                    Ok((now, node, action)) => {
                        let next = match action {
                            NextAction::Complete => Ok(now),
                            NextAction::Text => after_text(d, e, now, turn, node),
                            NextAction::Tool => after_tools(d, e, now, turn, node, false),
                            NextAction::ParallelTools => after_tools(d, e, now, turn, node, true),
                            NextAction::Subagent => after_delegation(d, e, now, place, turn, node, false),
                            NextAction::Swarm => after_delegation(d, e, now, place, turn, node, true),
                        };
                        match next {
                            Err(error) => Err(error),
                            Ok(after) => Ok((after, action == NextAction::Complete)),
                        }
                    },
                },
            }
        }),
{
    reveal(one_turn);
    reveal(after_delegation);
}

pub(crate) proof fn lemma_turns_from_unfold(
    d: Draws,
    e: Env,
    c: Course,
    place: Place,
    turn: nat,
    turns: nat,
)
    ensures
        turns_from(d, e, c, place, turn, turns) == ({
            if turn >= turns || c.plan.nodes.len() >= e.config.max_nodes {
                Ok(c)
            } else {
                match one_turn(d, e, c, place, turn, turns) {
                    Err(error) => Err(error),
                    Ok((after, complete)) => if complete {
                        Ok(after)
                    } else {
                        turns_from(d, e, after, place, turn + 1, turns)
                    },
                }
            }
        }),
{
    reveal(turns_from);
    reveal(one_turn);
}

pub(crate) broadcast proof fn lemma_session_unfold(
    d: Draws,
    e: Env,
    p: Plan,
    place: Place,
    parent: Option<Seq<char>>,
    dependencies: Seq<usize>,
    delay_ms: u64,
)
    ensures
        #[trigger] session(d, e, p, place, parent, dependencies, delay_ms) == ({
            if p.sessions.len() >= e.config.max_sessions || p.nodes.len() >= e.config.max_nodes {
                Ok((None, p))
            } else {
                match opened(d, e, p, place, parent, dependencies, delay_ms) {
                    Err(error) => Err(error),
                    Ok(c) => {
                        let (turns, q) = take(
                            d,
                            c.plan,
                            if place.depth == 0 {
                                e.config.turns
                            } else {
                                e.config.subagent_turns
                            },
                        );
                        if turns > usize::MAX {
                            Err(PlanError::TurnsTooMany)
                        } else {
                            match turns_from(d, e, Course { plan: q, ..c }, place, 0, turns as nat) {
                                Err(error) => Err(error),
                                Ok(done) => match done.latest {
                                    None => Err(PlanError::NoModelTurn),
                                    Some(last) => Ok((Some(last), done.plan)),
                                },
                            }
                        }
                    },
                }
            }
        }),
{
    reveal(session);
    reveal(turns_from);
}

} // verus!
