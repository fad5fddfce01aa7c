//! The planner: it builds the plan that a configuration and its sampled numbers stand for.

use crate::contracts::{clone_optional, optional_text, texts, AgentContext, TraceRequest};
use crate::digest::{push_le_bytes, read_le_number, sha256_digest};
use crate::double::Real;
use crate::numeric::div_ceil;
use crate::scenario::config::ResolvedGeneratorConfig;
use crate::scenario::distribution::UIntDistribution;
use crate::scenario::model::{
    event_views, node_views, operation_views, session_views, CompactionExpectedEffect, GeneratedCompactionAttempt,
    GeneratedCompactionOperation, GeneratedNode, GeneratedSession, GeneratedToolEvent, NodeView, OperationView,
    SessionView, ToolEventView,
};
use crate::scenario::outline::{
    action_for, after_delegation, after_text, after_tools, answered, appended, attempt_effects, attempt_limit,
    attempts, blank_plan, candidate, child_count, children, compacted, compaction_metadata, draft_failure,
    drafted_node, first_arrival, first_free, labelled, labelled_blocks, labels_in_use, lemma_after_delegation_unfold,
    lemma_children_unfold, lemma_one_turn_unfold, lemma_session_unfold, lemma_turns_from_unfold, maybe_compacted,
    one_turn, opened, operated, operation_name, part_scope, requested, retained_blocks, room, segment, session,
    session_name, started, take, take_chance, take_word, tool_call, tool_calls, tool_from, tool_scope, top_level,
    turns_from, Course, Draft, Env, NextAction, Place, Plan, PlanError, Window,
};
use crate::scenario::source::{extends, lemma_extends_push, Ask, Drawn, Draws, SampleSource};
use crate::text::{decimal_text, hexadecimal_text};
use std::collections::HashSet;
use vstd::hash_map::StringHashMap;
use vstd::prelude::*;
use vstd::utf8::encode_utf8;

verus! {

/// A plan in the making, with the source of its numbers.
pub(crate) struct Builder<S: SampleSource> {
    pub(crate) source: S,
    pub(crate) shared_prefix: Vec<u64>,
    pub(crate) sessions: Vec<GeneratedSession>,
    pub(crate) nodes: Vec<GeneratedNode>,
    pub(crate) operations: Vec<GeneratedCompactionOperation>,
    pub(crate) labels: StringHashMap<u64>,
    pub(crate) taken: HashSet<u64>,
    pub(crate) total_input_tokens: u64,
}

/// The context of a session.
struct SessionState {
    session_id: String,
    parent_session_id: Option<String>,
    blocks: Vec<u64>,
    stable_blocks: usize,
    window_epoch: usize,
}

impl SessionState {
    spec fn window(&self) -> Window {
        Window {
            session_id: self.session_id@,
            parent_session_id: optional_text(self.parent_session_id),
            blocks: self.blocks@,
            stable_blocks: self.stable_blocks as nat,
            epoch: self.window_epoch,
        }
    }
}

/// The course of a session.
struct Progress {
    state: SessionState,
    dependencies: Vec<usize>,
    delay_ms: u64,
    trigger: &'static str,
    latest: Option<usize>,
}

spec fn course<S: SampleSource>(builder: Builder<S>, progress: Progress) -> Course {
    Course {
        plan: builder.plan(),
        window: progress.state.window(),
        dependencies: progress.dependencies@,
        delay_ms: progress.delay_ms,
        trigger: progress.trigger@,
        latest: progress.latest,
    }
}

/// A request in the making.
struct NodeSpec<'a> {
    dependencies: Vec<usize>,
    delay_ms: u64,
    arrival_ms: Option<u64>,
    action: &'a str,
    trigger: &'a str,
    output_tokens: u64,
    budget_tokens: Option<u64>,
    attempt: Option<GeneratedCompactionAttempt>,
}

impl<'a> NodeSpec<'a> {
    spec fn draft(&self) -> Draft {
        Draft {
            dependencies: self.dependencies@,
            delay_ms: self.delay_ms,
            arrival_ms: self.arrival_ms,
            action: self.action@,
            trigger: self.trigger@,
            output_tokens: self.output_tokens,
            budget_tokens: self.budget_tokens,
            attempt: match self.attempt {
                Some(attempt) => Some(attempt@),
                None => None,
            },
        }
    }
}

fn part_text(session_id: &str, part: &str, number: usize) -> (text: String)
    ensures
        text@ == part_scope(session_id@, part@, number as nat),
{
    let mut text = "session:".to_string();
    text.append(session_id);
    text.append(part);
    text.append(decimal_text(number as u64).as_str());
    text
}

fn tool_text(session_id: &str, turn: usize, index: usize, class: &str, failed: bool) -> (text: String)
    ensures
        text@ == tool_scope(session_id@, turn as nat, index as nat, class@, failed),
{
    let mut text = "session:".to_string();
    text.append(session_id);
    text.append(":tool:");
    text.append(decimal_text(turn as u64).as_str());
    text.append(":");
    text.append(decimal_text(index as u64).as_str());
    text.append(":");
    text.append(class);
    text.append(":");
    text.append(
        if failed {
            "true"
        } else {
            "false"
        },
    );
    text
}

fn metadata_text(attempt: &GeneratedCompactionAttempt, epoch: usize, pre_tokens: usize) -> (text: String)
    ensures
        text@ == compaction_metadata(attempt@, epoch as nat, pre_tokens as nat),
{
    let mut text = "{\"attempt\":".to_string();
    text.append(decimal_text(attempt.attempt as u64).as_str());
    text.append(",\"expected_effect\":\"");
    text.append(attempt.expected_effect.name());
    text.append("\",\"operation_id\":\"");
    text.append(attempt.operation_id.as_str());
    text.append("\",\"output_budget_tokens\":null,\"phase\":\"");
    text.append(attempt.phase.as_str());
    text.append("\",\"pre_tokens\":");
    text.append(decimal_text(pre_tokens as u64).as_str());
    text.append(",\"window_epoch\":");
    text.append(decimal_text(epoch as u64).as_str());
    text.append("}");
    text
}

fn draw_label(seed: u64, owner: &str, nonce: u64) -> (label: u64)
    ensures
        label == candidate(seed, owner@, nonce),
{
    let mut bytes: Vec<u8> = Vec::new();
    bytes.extend_from_slice("agent-loadgen/generated-segment/v1".as_bytes());
    assert(bytes@ =~= encode_utf8("agent-loadgen/generated-segment/v1"@));
    push_le_bytes(&mut bytes, seed);
    let ghost before = bytes@;
    bytes.extend_from_slice(owner.as_bytes());
    assert(bytes@ =~= before + encode_utf8(owner@));
    push_le_bytes(&mut bytes, nonce);
    let digest = sha256_digest(bytes.as_slice());
    read_le_number(digest.as_slice())
}

fn choose_action(env: &Env, word: u64, depth: usize, allow_completion: bool) -> (action: NextAction)
    ensures
        action == action_for(*env, word, depth as nat, allow_completion),
{
    let sums = &env.tables.sums;
    let delegates = depth < env.config.max_depth;
    if env.config.tool_probability.is_above_draw(word) {
        return NextAction::Tool;
    }
    if sums.with_parallel.is_above_draw(word) {
        return NextAction::ParallelTools;
    }
    if delegates {
        if sums.with_subagent.is_above_draw(word) {
            return NextAction::Subagent;
        }
        if sums.with_swarm.is_above_draw(word) {
            return NextAction::Swarm;
        }
    }
    let completion = if delegates {
        &sums.with_completion
    } else {
        &sums.leaf_completion
    };
    if allow_completion && completion.is_above_draw(word) {
        NextAction::Complete
    } else {
        NextAction::Text
    }
}

fn choose_tool(env: &Env, word: u64) -> (class: usize)
    requires
        env.config.tool_classes@.len() > 0,
    ensures
        class == tool_from(*env, word, 0),
        class < env.config.tool_classes@.len(),
{
    let last: usize = env.config.tool_classes.len() - 1;
    let mut k: usize = 0;
    while k < last && k < env.tables.tool_draws.len()
        invariant
            last == env.config.tool_classes@.len() - 1,
            k <= last,
            tool_from(*env, word, 0) == tool_from(*env, word, k as nat),
        decreases last - k,
    {
        if word / 2048 < env.tables.tool_draws[k] {
            return k;
        }
        k += 1;
    }
    last
}

impl<S: SampleSource> Builder<S> {
    /// The plan so far.
    pub(crate) closed spec fn plan(&self) -> Plan {
        Plan {
            prefix: self.shared_prefix@,
            sessions: session_views(self.sessions@),
            nodes: node_views(self.nodes@),
            operations: operation_views(self.operations@),
            labels: self.labels@,
            total_input_tokens: self.total_input_tokens,
            asked: self.source.drawn().asks(),
        }
    }

    /// What the source was asked for and has given.
    pub(crate) closed spec fn drawn(&self) -> Drawn {
        self.source.drawn()
    }

    pub(crate) closed spec fn wf(&self) -> bool {
        self.taken@ == labels_in_use(self.labels@) && self.source.valid()
    }

    pub(crate) fn new(source: S) -> (builder: Self)
        requires
            source.valid(),
            source.drawn().is_blank(),
        ensures
            builder.wf(),
            builder.plan() == blank_plan(),
            builder.drawn() == source.drawn(),
    {
        let builder = Builder {
            source,
            shared_prefix: Vec::new(),
            sessions: Vec::new(),
            nodes: Vec::new(),
            operations: Vec::new(),
            labels: StringHashMap::new(),
            taken: HashSet::new(),
            total_input_tokens: 0,
        };
        assert(builder.taken@ =~= labels_in_use(builder.labels@));
        assert(builder.plan() =~= blank_plan());
        builder
    }

    pub(crate) fn sample(&mut self, distribution: &UIntDistribution) -> (value: u64)
        requires
            old(self).wf(),
            distribution.failure() is None,
        ensures
            final(self).wf(),
            final(self).nodes@ == old(self).nodes@,
            final(self).sessions@ == old(self).sessions@,
            distribution.range().0 <= value <= distribution.range().1,
            forall|d: Draws| #[trigger]
                extends(d, final(self).drawn()) ==> extends(d, old(self).drawn()) && take(
                    d,
                    old(self).plan(),
                    *distribution,
                ) == (value, final(self).plan()),
    {
        distribution.sample(&mut self.source)
    }

    fn word(&mut self) -> (word: u64)
        requires
            old(self).wf(),
        ensures
            final(self).wf(),
            final(self).nodes@ == old(self).nodes@,
            final(self).sessions@ == old(self).sessions@,
            forall|d: Draws| #[trigger]
                extends(d, final(self).drawn()) ==> extends(d, old(self).drawn()) && take_word(d, old(self).plan())
                    == (word, final(self).plan()),
    {
        let word = self.source.word();
        proof {
            lemma_extends_push(old(self).source.drawn(), Ask::Word, word);
        }
        word
    }

    fn chance(&mut self, probability: &Real) -> (result: bool)
        requires
            old(self).wf(),
        ensures
            final(self).wf(),
            final(self).nodes@ == old(self).nodes@,
            final(self).sessions@ == old(self).sessions@,
            forall|d: Draws| #[trigger]
                extends(d, final(self).drawn()) ==> extends(d, old(self).drawn()) && take_chance(
                    d,
                    old(self).plan(),
                    *probability,
                ) == (result, final(self).plan()),
    {
        let word = self.word();
        probability.is_above_draw(word)
    }

    fn label(&mut self, config: &ResolvedGeneratorConfig, owner: &str) -> (result: Result<u64, PlanError>)
        requires
            old(self).wf(),
        ensures
            final(self).wf(),
            final(self).drawn() == old(self).drawn(),
            final(self).nodes@ == old(self).nodes@,
            final(self).sessions@ == old(self).sessions@,
            match result {
                Ok(label) => labelled(*config, old(self).plan(), owner@) == Ok::<(u64, Plan), PlanError>(
                    (label, final(self).plan()),
                ),
                Err(error) => labelled(*config, old(self).plan(), owner@) == Err::<(u64, Plan), PlanError>(error),
            },
    {
        if let Some(label) = self.labels.get(owner) {
            return Ok(*label);
        }
        let mut nonce: u64 = 0;
        loop
            invariant
                *self == *old(self),
                self.wf(),
                !self.labels@.contains_key(owner@),
                first_free(self.labels@, config.seed, owner@, 0) == first_free(
                    self.labels@,
                    config.seed,
                    owner@,
                    nonce as nat,
                ),
            decreases u64::MAX - nonce,
        {
            let label = draw_label(config.seed, owner, nonce);
            if !self.taken.contains(&label) {
                let ghost before = self.labels@;
                self.labels.insert(owner.to_string(), label);
                self.taken.insert(label);
                proof {
                    assert forall|x: u64| #[trigger]
                        self.taken@.contains(x) == labels_in_use(self.labels@).contains(x) by {
                        if labels_in_use(before).contains(x) {
                            let o = choose|o: Seq<char>| #[trigger] before.contains_key(o) && before[o] == x;
                            assert(self.labels@.contains_key(o) && self.labels@[o] == x);
                        }
                        assert(self.labels@.contains_key(owner@));
                        if labels_in_use(self.labels@).contains(x) && x != label {
                            let o = choose|o: Seq<char>| #[trigger]
                                self.labels@.contains_key(o) && self.labels@[o] == x;
                            assert(before.contains_key(o) && before[o] == x);
                        }
                    }
                    assert(self.taken@ =~= labels_in_use(self.labels@));
                }
                return Ok(label);
            }
            if nonce == u64::MAX {
                assert(first_free(self.labels@, config.seed, owner@, u64::MAX as nat + 1) is None);
                return Err(PlanError::LabelsExhausted);
            }
            nonce += 1;
        }
    }

    pub(crate) fn segment(
        &mut self,
        config: &ResolvedGeneratorConfig,
        scope: &str,
        tokens: u64,
    ) -> (result: Result<Vec<u64>, PlanError>)
        requires
            old(self).wf(),
            config.block_size > 0,
        ensures
            final(self).wf(),
            final(self).drawn() == old(self).drawn(),
            final(self).nodes@ == old(self).nodes@,
            final(self).sessions@ == old(self).sessions@,
            match result {
                Ok(blocks) => segment(*config, old(self).plan(), scope@, tokens) == Ok::<
                    (Seq<u64>, Plan),
                    PlanError,
                >((blocks@, final(self).plan())),
                Err(error) => segment(*config, old(self).plan(), scope@, tokens) == Err::<
                    (Seq<u64>, Plan),
                    PlanError,
                >(error),
            },
    {
        if tokens > usize::MAX as u64 {
            return Err(PlanError::SegmentTooLong);
        }
        let count = div_ceil(tokens as usize, config.block_size);
        let mut blocks: Vec<u64> = Vec::new();
        let mut block: usize = 0;
        while block < count
            invariant
                block <= count,
                self.wf(),
                self.drawn() == old(self).drawn(),
                self.nodes@ == old(self).nodes@,
                self.sessions@ == old(self).sessions@,
                labelled_blocks(*config, old(self).plan(), scope@, block as nat) == Ok::<
                    (Seq<u64>, Plan),
                    PlanError,
                >((blocks@, self.plan())),
                tokens <= usize::MAX,
                count == crate::numeric::ceil_div(tokens as nat, config.block_size as nat),
            decreases count - block,
        {
            let mut owner = scope.to_string();
            owner.append(":block:");
            owner.append(decimal_text(block as u64).as_str());
            match self.label(config, owner.as_str()) {
                Ok(label) => {
                    blocks.push(label);
                },
                Err(error) => {
                    proof {
                        lemma_blocks_keep_failing(
                            *config,
                            old(self).plan(),
                            scope@,
                            block as nat + 1,
                            count as nat,
                        );
                    }
                    return Err(error);
                },
            }
            block += 1;
        }
        Ok(blocks)
    }

    fn extend(
        &mut self,
        config: &ResolvedGeneratorConfig,
        state: &mut SessionState,
        scope: &str,
        tokens: u64,
    ) -> (result: Result<(), PlanError>)
        requires
            old(self).wf(),
            config.block_size > 0,
        ensures
            final(self).wf(),
            final(self).drawn() == old(self).drawn(),
            final(self).nodes@ == old(self).nodes@,
            final(self).sessions@ == old(self).sessions@,
            final(state).session_id == old(state).session_id,
            final(state).window_epoch == old(state).window_epoch,
            final(state).stable_blocks == old(state).stable_blocks,
            final(state).blocks@.len() >= old(state).blocks@.len(),
            match result {
                Ok(()) => appended(*config, old(self).plan(), old(state).window(), scope@, tokens) == Ok::<
                    (Window, Plan),
                    PlanError,
                >((final(state).window(), final(self).plan())),
                Err(error) => appended(*config, old(self).plan(), old(state).window(), scope@, tokens) == Err::<
                    (Window, Plan),
                    PlanError,
                >(error),
            },
    {
        match self.segment(config, scope, tokens) {
            Ok(blocks) => {
                let mut blocks = blocks;
                state.blocks.append(&mut blocks);
                Ok(())
            },
            Err(error) => Err(error),
        }
    }

    fn push_request(
        &mut self,
        config: &ResolvedGeneratorConfig,
        state: &SessionState,
        spec: NodeSpec<'_>,
    ) -> (result: Result<usize, PlanError>)
        requires
            old(self).wf(),
        ensures
            final(self).wf(),
            final(self).drawn() == old(self).drawn(),
            final(self).sessions@ == old(self).sessions@,
            match result {
                Ok(node) => {
                    &&& requested(*config, old(self).plan(), state.window(), spec.draft()) == Ok::<
                        (usize, Plan),
                        PlanError,
                    >((node, final(self).plan()))
                    &&& node == old(self).nodes@.len()
                    &&& final(self).nodes@.len() == old(self).nodes@.len() + 1
                },
                Err(error) => requested(*config, old(self).plan(), state.window(), spec.draft()) == Err::<
                    (usize, Plan),
                    PlanError,
                >(error),
            },
    {
        let ghost draft = spec.draft();
        let ghost before = self.plan();
        let ghost window = state.window();
        if self.nodes.len() >= config.max_nodes {
            return Err(PlanError::NodesExhausted);
        }
        if (spec.dependencies.len() == 0) != spec.arrival_ms.is_some() {
            return Err(PlanError::ArrivalMismatch);
        }
        let mut k: usize = 0;
        while k < spec.dependencies.len()
            invariant
                k <= spec.dependencies@.len(),
                draft.dependencies == spec.dependencies@,
                draft.arrival_ms == spec.arrival_ms,
                (draft.dependencies.len() == 0) == draft.arrival_ms is Some,
                self.plan() == before,
                before.nodes.len() == self.nodes@.len(),
                self.nodes@.len() < config.max_nodes,
                *self == *old(self),
                old(self).wf(),
                before == old(self).plan(),
                window == state.window(),
                draft == spec.draft(),
                forall|j: int| 0 <= j < k ==> (#[trigger] draft.dependencies[j]) < before.nodes.len(),
            decreases spec.dependencies@.len() - k,
        {
            if spec.dependencies[k] >= self.nodes.len() {
                assert(draft.dependencies[k as int] >= before.nodes.len());
                return Err(PlanError::ForwardDependency);
            }
            k += 1;
        }
        let input_tokens = match state.blocks.len().checked_mul(config.block_size) {
            Some(input_tokens) => input_tokens,
            None => {
                return Err(PlanError::InputOverflow);
            },
        };
        let total = match self.total_input_tokens.checked_add(input_tokens as u64) {
            Some(total) => total,
            None => {
                return Err(PlanError::TotalOverflow);
            },
        };
        if total > config.max_total_input_tokens {
            return Err(PlanError::TotalExceeded { limit: config.max_total_input_tokens });
        }
        if spec.output_tokens > u32::MAX as u64 {
            return Err(PlanError::OutputTooLarge);
        }
        let output_budget_tokens: Option<u32> = match spec.budget_tokens {
            Some(budget) => {
                if budget > u32::MAX as u64 {
                    return Err(PlanError::BudgetTooLarge);
                }
                Some(budget as u32)
            },
            None => None,
        };
        if spec.output_tokens == 0 && spec.attempt.is_none() {
            return Err(PlanError::ZeroOutput);
        }
        assert(draft_failure(*config, before, window, draft) is None);
        let ordinal = self.nodes.len();
        let mut node_id = "node-".to_string();
        node_id.append(decimal_text(ordinal as u64).as_str());
        let mut source_request_id = "generated-".to_string();
        source_request_id.append(hexadecimal_text(config.seed, 16).as_str());
        source_request_id.append("-");
        source_request_id.append(decimal_text(ordinal as u64).as_str());
        let input_sequence_hashes = state.blocks.clone();
        assert(input_sequence_hashes@ =~= state.blocks@);
        let compaction = match &spec.attempt {
            Some(attempt) => Some(metadata_text(attempt, state.window_epoch, input_tokens)),
            None => None,
        };
        let request = TraceRequest {
            ordinal,
            source_request_id,
            source_x_request_id: None,
            source_model: None,
            input_tokens,
            output_tokens: spec.output_tokens as u32,
            request_received_ms: match spec.arrival_ms {
                Some(arrival) => arrival,
                None => 0,
            },
            trace_block_size: config.block_size,
            input_sequence_hashes,
            agent_context: Some(
                AgentContext {
                    session_id: state.session_id.clone(),
                    parent_session_id: clone_optional(&state.parent_session_id),
                    session_final: None,
                    compaction,
                    input_trigger: Some(spec.trigger.to_string()),
                },
            ),
        };
        let node = GeneratedNode {
            node_id,
            action: spec.action.to_string(),
            dependencies: spec.dependencies,
            delay_after_dependencies_ms: spec.delay_ms,
            initial_arrival_ms: spec.arrival_ms,
            window_epoch: state.window_epoch,
            tool_events: Vec::new(),
            spawned_session_ids: Vec::new(),
            output_budget_tokens,
            compaction_attempt: spec.attempt,
            request,
        };
        proof {
            let wanted = drafted_node(*config, before, window, draft);
            assert(node@.tool_events =~= wanted.tool_events);
            assert(node@.spawned_session_ids =~= wanted.spawned_session_ids);
            assert(node@.request =~= wanted.request);
            assert(node@ =~= wanted);
        }
        self.total_input_tokens = total;
        self.nodes.push(node);
        assert(node_views(self.nodes@) =~= before.nodes.push(node@));
        Ok(ordinal)
    }
}

proof fn lemma_blocks_keep_failing(e: ResolvedGeneratorConfig, p: Plan, scope: Seq<char>, n: nat, m: nat)
    requires
        n <= m,
        labelled_blocks(e, p, scope, n) is Err,
    ensures
        labelled_blocks(e, p, scope, m) == labelled_blocks(e, p, scope, n),
    decreases m,
{
    if n < m {
        lemma_blocks_keep_failing(e, p, scope, n, (m - 1) as nat);
    }
}

impl<S: SampleSource> Builder<S> {
    fn attempt_compactions(
        &mut self,
        config: &ResolvedGeneratorConfig,
        state: &SessionState,
        dependencies: Vec<usize>,
        delay_ms: u64,
        arrival_ms: Option<u64>,
        operation_id: &String,
        effects: &Vec<CompactionExpectedEffect>,
        summary_tokens: u64,
        Ghost(c): Ghost<Course>,
    ) -> (result: Result<Vec<usize>, PlanError>)
        requires
            old(self).wf(),
            config.compaction_abort_after_ms.failure() is None,
            c.plan == old(self).plan(),
            c.window == state.window(),
            c.dependencies == dependencies@,
            c.delay_ms == delay_ms,
            0 < effects@.len() <= 3,
        ensures
            final(self).wf(),
            final(self).sessions@ == old(self).sessions@,
            match result {
                Ok(nodes) => {
                    &&& nodes@.len() == effects@.len()
                    &&& final(self).nodes@.len() == old(self).nodes@.len() + effects@.len()
                    &&& forall|d: Draws| #[trigger]
                        extends(d, final(self).drawn()) ==> extends(d, old(self).drawn()) && attempts(
                            d,
                            *config,
                            c,
                            operation_id@,
                            arrival_ms,
                            summary_tokens,
                            effects@,
                            effects@.len(),
                        ) == Ok::<(Seq<usize>, Plan), PlanError>((nodes@, final(self).plan()))
                },
                Err(error) => forall|d: Draws| #[trigger]
                    extends(d, final(self).drawn()) ==> extends(d, old(self).drawn()) && attempts(
                        d,
                        *config,
                        c,
                        operation_id@,
                        arrival_ms,
                        summary_tokens,
                        effects@,
                        effects@.len(),
                    ) == Err::<(Seq<usize>, Plan), PlanError>(error),
            },
    {
        let mut nodes: Vec<usize> = Vec::new();
        let mut waits = dependencies;
        let mut i: usize = 0;
        while i < effects.len()
            invariant
                i <= effects@.len() <= 3,
                self.wf(),
                self.sessions@ == old(self).sessions@,
                config.compaction_abort_after_ms.failure() is None,
                c.window == state.window(),
                c.delay_ms == delay_ms,
                nodes@.len() == i,
                waits@ == if i == 0 {
                    c.dependencies
                } else {
                    seq![nodes@.last()]
                },
                self.nodes@.len() == old(self).nodes@.len() + i,
                forall|d: Draws| #[trigger]
                    extends(d, self.drawn()) ==> extends(d, old(self).drawn()) && attempts(
                        d,
                        *config,
                        c,
                        operation_id@,
                        arrival_ms,
                        summary_tokens,
                        effects@,
                        i as nat,
                    ) == Ok::<(Seq<usize>, Plan), PlanError>((nodes@, self.plan())),
            decreases effects@.len() - i,
        {
            let effect = effects[i];
            let ghost entry = *self;
            let abort_after_ms = if effect == CompactionExpectedEffect::NoMutationAborted {
                Some(self.sample(&config.compaction_abort_after_ms))
            } else {
                None
            };
            let attempt = GeneratedCompactionAttempt {
                operation_id: operation_id.clone(),
                phase: "pre_turn".to_string(),
                attempt: i + 1,
                expected_effect: effect,
                abort_after_ms,
            };
            let mut taken: Vec<usize> = Vec::new();
            std::mem::swap(&mut taken, &mut waits);
            let spec = NodeSpec {
                dependencies: taken,
                delay_ms: if i == 0 {
                    delay_ms
                } else {
                    0
                },
                arrival_ms: if i == 0 {
                    arrival_ms
                } else {
                    None
                },
                action: "compaction_attempt",
                trigger: "other",
                output_tokens: if effect == CompactionExpectedEffect::ApplyOnce {
                    summary_tokens
                } else {
                    0
                },
                budget_tokens: None,
                attempt: Some(attempt),
            };
            match self.push_request(config, state, spec) {
                Ok(node) => {
                    nodes.push(node);
                    waits.clear();
                    waits.push(node);
                    assert(waits@ =~= seq![node]);
                },
                Err(error) => {
                    proof {
                        assert forall|d: Draws| #[trigger] extends(d, self.drawn()) implies extends(
                            d,
                            old(self).drawn(),
                        ) && attempts(
                            d,
                            *config,
                            c,
                            operation_id@,
                            arrival_ms,
                            summary_tokens,
                            effects@,
                            effects@.len(),
                        ) == Err::<(Seq<usize>, Plan), PlanError>(error) by {
                            assert(attempts(
                                d,
                                *config,
                                c,
                                operation_id@,
                                arrival_ms,
                                summary_tokens,
                                effects@,
                                i as nat + 1,
                            ) == Err::<(Seq<usize>, Plan), PlanError>(error));
                            lemma_attempts_keep_failing(
                                d,
                                *config,
                                c,
                                operation_id@,
                                arrival_ms,
                                summary_tokens,
                                effects@,
                                i as nat + 1,
                                effects@.len(),
                            );
                        }
                    }
                    return Err(error);
                },
            }
            i += 1;
        }
        Ok(nodes)
    }

    fn push_compaction_operation(
        &mut self,
        config: &ResolvedGeneratorConfig,
        state: &SessionState,
        turn: usize,
        dependencies: Vec<usize>,
        delay_ms: u64,
        arrival_ms: Option<u64>,
        summary_tokens: u64,
        Ghost(c): Ghost<Course>,
    ) -> (result: Result<Vec<usize>, PlanError>)
        requires
            old(self).wf(),
            config.compaction_abort_after_ms.failure() is None,
            c.plan == old(self).plan(),
            c.window == state.window(),
            c.dependencies == dependencies@,
            c.delay_ms == delay_ms,
        ensures
            final(self).wf(),
            final(self).sessions@ == old(self).sessions@,
            match result {
                Ok(nodes) => {
                    &&& nodes@.len() > 0
                    &&& final(self).nodes@.len() >= old(self).nodes@.len()
                    &&& forall|d: Draws| #[trigger]
                        extends(d, final(self).drawn()) ==> extends(d, old(self).drawn()) && operated(
                            d,
                            *config,
                            c,
                            turn as nat,
                            arrival_ms,
                            summary_tokens,
                        ) == Ok::<(Seq<usize>, Plan), PlanError>((nodes@, final(self).plan()))
                },
                Err(error) => forall|d: Draws| #[trigger]
                    extends(d, final(self).drawn()) ==> extends(d, old(self).drawn()) && operated(
                        d,
                        *config,
                        c,
                        turn as nat,
                        arrival_ms,
                        summary_tokens,
                    ) == Err::<(Seq<usize>, Plan), PlanError>(error),
            },
    {
        proof {
            reveal(operated);
        }
        let mut operation_id = "compaction-".to_string();
        operation_id.append(hexadecimal_text(config.seed, 16).as_str());
        operation_id.append("-");
        operation_id.append(state.session_id.as_str());
        operation_id.append("-");
        operation_id.append(decimal_text(state.window_epoch as u64).as_str());
        operation_id.append("-");
        operation_id.append(decimal_text(turn as u64).as_str());
        assert(operation_id@ == operation_name(*config, c.window, turn as nat));
        let available = config.max_nodes.saturating_sub(self.nodes.len());
        let limit = if available < config.compaction_max_attempts {
            available
        } else {
            config.compaction_max_attempts
        };
        if limit == 0 {
            return Err(PlanError::NoCompactionRoom);
        }
        assert(limit == attempt_limit(*config, c.plan));
        let mut effects: Vec<CompactionExpectedEffect> = Vec::new();
        let mut aborts = false;
        if limit >= 2 {
            aborts = self.chance(&config.compaction_abort_probability);
        }
        if aborts {
            effects.push(CompactionExpectedEffect::NoMutationAborted);
        }
        effects.push(CompactionExpectedEffect::ApplyOnce);
        assert(effects@ =~= attempt_effects(aborts, false));
        let mut duplicates = false;
        if effects.len() < limit {
            duplicates = self.chance(&config.compaction_retry_probability);
        }
        if duplicates {
            effects.push(CompactionExpectedEffect::DuplicateNoop);
        }
        assert(effects@ =~= attempt_effects(aborts, duplicates));
        let ghost middle = *self;
        let ghost c2 = Course { plan: middle.plan(), ..c };
        let nodes = match self.attempt_compactions(
            config,
            state,
            dependencies,
            delay_ms,
            arrival_ms,
            &operation_id,
            &effects,
            summary_tokens,
            Ghost(c2),
        ) {
            Ok(nodes) => nodes,
            Err(error) => {
                return Err(error);
            },
        };
        let ghost attempted = *self;
        let copy = nodes.clone();
        assert(copy@ =~= nodes@);
        let operation = GeneratedCompactionOperation {
            operation_id,
            session_id: state.session_id.clone(),
            phase: "pre_turn".to_string(),
            attempts: copy,
            applied_attempt: if aborts {
                2
            } else {
                1
            },
            expected_apply_count: 1,
        };
        self.operations.push(operation);
        proof {
            assert(operation_views(self.operations@) =~= operation_views(attempted.operations@).push(operation@));
            let wanted = OperationView {
                operation_id: operation_name(*config, c.window, turn as nat),
                session_id: c.window.session_id,
                phase: "pre_turn"@,
                attempts: nodes@,
                applied_attempt: if aborts {
                    2
                } else {
                    1
                },
                expected_apply_count: 1,
            };
            assert(operation@ =~= wanted);
            assert(self.plan() == Plan { operations: attempted.plan().operations.push(wanted), ..attempted.plan() });
            assert(self.drawn() == attempted.drawn());
            assert(nodes@.len() > 0);
            assert forall|d: Draws| #[trigger] extends(d, self.drawn()) implies extends(d, old(self).drawn())
                && operated(d, *config, c, turn as nat, arrival_ms, summary_tokens) == Ok::<
                (Seq<usize>, Plan),
                PlanError,
            >((nodes@, self.plan())) by {
                assert(extends(d, attempted.drawn()));
                assert(attempts(
                    d,
                    *config,
                    c2,
                    operation_name(*config, c.window, turn as nat),
                    arrival_ms,
                    summary_tokens,
                    effects@,
                    effects@.len(),
                ) == Ok::<(Seq<usize>, Plan), PlanError>((nodes@, attempted.plan())));
                assert(extends(d, middle.drawn()));
            }
        }
        Ok(nodes)
    }

    fn compact_state(
        &mut self,
        config: &ResolvedGeneratorConfig,
        state: &mut SessionState,
        turn: usize,
        summary_tokens: u64,
    ) -> (result: Result<(), PlanError>)
        requires
            old(self).wf(),
            config.block_size > 0,
            old(state).stable_blocks <= old(state).blocks@.len(),
            old(state).window_epoch < usize::MAX,
        ensures
            final(self).wf(),
            final(self).drawn() == old(self).drawn(),
            final(self).nodes@ == old(self).nodes@,
            final(self).sessions@ == old(self).sessions@,
            match result {
                Ok(()) => {
                    &&& compacted(*config, old(self).plan(), old(state).window(), turn as nat, summary_tokens)
                        == Ok::<(Window, Plan), PlanError>((final(state).window(), final(self).plan()))
                    &&& final(state).session_id == old(state).session_id
                    &&& final(state).stable_blocks == old(state).stable_blocks
                    &&& final(state).stable_blocks <= final(state).blocks@.len()
                    &&& final(state).window_epoch == old(state).window_epoch + 1
                },
                Err(error) => compacted(
                    *config,
                    old(self).plan(),
                    old(state).window(),
                    turn as nat,
                    summary_tokens,
                ) == Err::<(Window, Plan), PlanError>(error),
            },
    {
        let wanted = div_ceil(config.retained_recent_tokens, config.block_size);
        let history = state.blocks.len() - state.stable_blocks;
        let retained = if wanted < history {
            wanted
        } else {
            history
        };
        assert(retained == retained_blocks(*config, state.window()));
        let scope = part_text(state.session_id.as_str(), ":summary:", turn);
        match self.segment(config, scope.as_str(), summary_tokens) {
            Ok(summary) => {
                let mut summary = summary;
                let ghost all = state.blocks@;
                let cut = state.blocks.len() - retained;
                let mut recent = state.blocks.split_off(cut);
                assert(recent@ =~= all.skip(cut as int));
                state.blocks.truncate(state.stable_blocks);
                assert(state.blocks@ =~= all.take(state.stable_blocks as int));
                state.blocks.append(&mut summary);
                state.blocks.append(&mut recent);
                state.window_epoch = state.window_epoch + 1;
                Ok(())
            },
            Err(error) => Err(error),
        }
    }

    fn maybe_compact(
        &mut self,
        env: &Env,
        progress: &mut Progress,
        turn: usize,
        arrival_ms: Option<u64>,
    ) -> (result: Result<(), PlanError>)
        requires
            old(self).wf(),
            env.config.ready(),
            old(progress).state.stable_blocks <= old(progress).state.blocks@.len(),
            old(progress).state.window_epoch < usize::MAX,
        ensures
            final(self).wf(),
            final(self).sessions@ == old(self).sessions@,
            match result {
                Ok(()) => {
                    &&& final(self).nodes@.len() >= old(self).nodes@.len()
                    &&& final(progress).state.session_id == old(progress).state.session_id
                    &&& final(progress).state.stable_blocks <= final(progress).state.blocks@.len()
                    &&& final(progress).state.window_epoch <= old(progress).state.window_epoch + 1
                    &&& forall|d: Draws| #[trigger]
                        extends(d, final(self).drawn()) ==> extends(d, old(self).drawn()) && maybe_compacted(
                            d,
                            *env,
                            course(*old(self), *old(progress)),
                            turn as nat,
                            arrival_ms,
                        ) == Ok::<Course, PlanError>(course(*final(self), *final(progress)))
                },
                Err(error) => forall|d: Draws| #[trigger]
                    extends(d, final(self).drawn()) ==> extends(d, old(self).drawn()) && maybe_compacted(
                        d,
                        *env,
                        course(*old(self), *old(progress)),
                        turn as nat,
                        arrival_ms,
                    ) == Err::<Course, PlanError>(error),
            },
    {
        proof {
            reveal(maybe_compacted);
        }
        let config = &env.config;
        let count = progress.state.blocks.len() as u128;
        let each = config.block_size as u128;
        assert(count * each <= 0xffff_ffff_ffff_ffff * 0xffff_ffff_ffff_ffff) by (nonlinear_arith)
            requires
                count <= 0xffff_ffff_ffff_ffff,
                each <= 0xffff_ffff_ffff_ffff,
        ;
        let size = count * each;
        let due = config.compaction_enabled && size >= env.tables.compaction_trigger_tokens as u128;
        if !due {
            return Ok(());
        }
        let original = progress.state.blocks.len();
        let ghost before = progress.state.window();
        let prompt_tokens = self.sample(&config.summary_input_tokens);
        let scope = part_text(progress.state.session_id.as_str(), ":compaction-prompt:", turn);
        match self.segment(config, scope.as_str(), prompt_tokens) {
            Ok(prompt) => {
                let mut prompt = prompt;
                progress.state.blocks.append(&mut prompt);
            },
            Err(error) => {
                return Err(error);
            },
        }
        let summary_tokens = self.sample(&config.summary_output_tokens);
        let first = if progress.latest.is_none() {
            arrival_ms
        } else {
            None
        };
        let mut dependencies: Vec<usize> = Vec::new();
        std::mem::swap(&mut dependencies, &mut progress.dependencies);
        let ghost c = Course {
            plan: self.plan(),
            window: progress.state.window(),
            ..course(*old(self), *old(progress))
        };
        let nodes = match self.push_compaction_operation(
            config,
            &progress.state,
            turn,
            dependencies,
            progress.delay_ms,
            first,
            summary_tokens,
            Ghost(c),
        ) {
            Ok(nodes) => nodes,
            Err(error) => {
                return Err(error);
            },
        };
        let last = nodes[nodes.len() - 1];
        progress.state.blocks.truncate(original);
        assert(progress.state.blocks@ =~= before.blocks);
        assert(progress.state.window() == before);
        if let Err(error) = self.compact_state(config, &mut progress.state, turn, summary_tokens) {
            return Err(error);
        }
        progress.dependencies.clear();
        progress.dependencies.push(last);
        assert(progress.dependencies@ =~= seq![last]);
        progress.delay_ms = 0;
        progress.trigger = "other";
        progress.latest = Some(last);
        Ok(())
    }
}

proof fn lemma_attempts_keep_failing(
    d: Draws,
    e: ResolvedGeneratorConfig,
    c: Course,
    operation: Seq<char>,
    arrival_ms: Option<u64>,
    summary_tokens: u64,
    effects: Seq<CompactionExpectedEffect>,
    n: nat,
    m: nat,
)
    requires
        n <= m,
        attempts(d, e, c, operation, arrival_ms, summary_tokens, effects, n) is Err,
    ensures
        attempts(d, e, c, operation, arrival_ms, summary_tokens, effects, m) == attempts(
            d,
            e,
            c,
            operation,
            arrival_ms,
            summary_tokens,
            effects,
            n,
        ),
    decreases m,
{
    if n < m {
        lemma_attempts_keep_failing(
            d,
            e,
            c,
            operation,
            arrival_ms,
            summary_tokens,
            effects,
            n,
            (m - 1) as nat,
        );
    }
}

impl<S: SampleSource> Builder<S> {
    fn answer(
        &mut self,
        env: &Env,
        progress: &mut Progress,
        turn: usize,
        turns: usize,
        depth: usize,
        arrival_ms: Option<u64>,
    ) -> (result: Result<(usize, NextAction), PlanError>)
        requires
            old(self).wf(),
            env.config.ready(),
            turn < turns,
            old(progress).state.stable_blocks <= old(progress).state.blocks@.len(),
        ensures
            final(self).wf(),
            final(self).sessions@ == old(self).sessions@,
            match result {
                Ok((node, action)) => {
                    &&& node < final(self).nodes@.len()
                    &&& final(self).nodes@.len() >= old(self).nodes@.len()
                    &&& (action is Subagent || action is Swarm) ==> depth < env.config.max_depth
                    &&& final(progress).state.session_id == old(progress).state.session_id
                    &&& final(progress).state.stable_blocks <= final(progress).state.blocks@.len()
                    &&& final(progress).state.window_epoch == old(progress).state.window_epoch
                    &&& forall|d: Draws| #[trigger]
                        extends(d, final(self).drawn()) ==> extends(d, old(self).drawn()) && answered(
                            d,
                            *env,
                            course(*old(self), *old(progress)),
                            turn as nat,
                            turns as nat,
                            depth as nat,
                            arrival_ms,
                        ) == Ok::<(Course, usize, NextAction), PlanError>(
                            (course(*final(self), *final(progress)), node, action),
                        )
                },
                Err(error) => forall|d: Draws| #[trigger]
                    extends(d, final(self).drawn()) ==> extends(d, old(self).drawn()) && answered(
                        d,
                        *env,
                        course(*old(self), *old(progress)),
                        turn as nat,
                        turns as nat,
                        depth as nat,
                        arrival_ms,
                    ) == Err::<(Course, usize, NextAction), PlanError>(error),
            },
    {
        proof {
            reveal(answered);
        }
        let config = &env.config;
        let output_tokens = self.sample(&config.output_tokens);
        let minimum: usize = if turns < 2 {
            turns
        } else {
            2
        };
        let action = if turn + 1 == turns {
            NextAction::Complete
        } else {
            let word = self.word();
            choose_action(env, word, depth, turn + 1 >= minimum)
        };
        let mut dependencies: Vec<usize> = Vec::new();
        std::mem::swap(&mut dependencies, &mut progress.dependencies);
        let spec = NodeSpec {
            dependencies,
            delay_ms: progress.delay_ms,
            arrival_ms: if progress.latest.is_none() {
                arrival_ms
            } else {
                None
            },
            action: action.name(),
            trigger: progress.trigger,
            output_tokens,
            budget_tokens: Some(output_tokens),
            attempt: None,
        };
        assert(spec.draft() =~= Draft {
            dependencies: old(progress).dependencies@,
            delay_ms: old(progress).delay_ms,
            arrival_ms: first_arrival(course(*old(self), *old(progress)), arrival_ms),
            action: action.label(),
            trigger: old(progress).trigger@,
            output_tokens,
            budget_tokens: Some(output_tokens),
            attempt: None,
        });
        let node = match self.push_request(config, &progress.state, spec) {
            Ok(node) => node,
            Err(error) => {
                return Err(error);
            },
        };
        let scope = part_text(progress.state.session_id.as_str(), ":assistant:", turn);
        if let Err(error) = self.extend(config, &mut progress.state, scope.as_str(), output_tokens) {
            return Err(error);
        }
        progress.dependencies.clear();
        progress.dependencies.push(node);
        assert(progress.dependencies@ =~= seq![node]);
        progress.latest = Some(node);
        Ok((node, action))
    }

    fn follow_text(
        &mut self,
        env: &Env,
        progress: &mut Progress,
        turn: usize,
        node: usize,
    ) -> (result: Result<(), PlanError>)
        requires
            old(self).wf(),
            env.config.ready(),
            turn < usize::MAX,
            old(progress).state.stable_blocks <= old(progress).state.blocks@.len(),
        ensures
            final(self).wf(),
            final(self).sessions@ == old(self).sessions@,
            match result {
                Ok(()) => {
                    &&& final(self).nodes@.len() == old(self).nodes@.len()
                    &&& final(progress).state.session_id == old(progress).state.session_id
                    &&& final(progress).state.stable_blocks <= final(progress).state.blocks@.len()
                    &&& final(progress).state.window_epoch == old(progress).state.window_epoch
                    &&& forall|d: Draws| #[trigger]
                        extends(d, final(self).drawn()) ==> extends(d, old(self).drawn()) && after_text(
                            d,
                            *env,
                            course(*old(self), *old(progress)),
                            turn as nat,
                            node,
                        ) == Ok::<Course, PlanError>(course(*final(self), *final(progress)))
                },
                Err(error) => forall|d: Draws| #[trigger]
                    extends(d, final(self).drawn()) ==> extends(d, old(self).drawn()) && after_text(
                        d,
                        *env,
                        course(*old(self), *old(progress)),
                        turn as nat,
                        node,
                    ) == Err::<Course, PlanError>(error),
            },
    {
        proof {
            reveal(after_text);
        }
        let config = &env.config;
        let user_tokens = self.sample(&config.user_tokens);
        let scope = part_text(progress.state.session_id.as_str(), ":user:", turn + 1);
        if let Err(error) = self.extend(config, &mut progress.state, scope.as_str(), user_tokens) {
            return Err(error);
        }
        progress.dependencies.clear();
        progress.dependencies.push(node);
        assert(progress.dependencies@ =~= seq![node]);
        progress.delay_ms = self.sample(&config.think_time_ms);
        progress.trigger = "user_message";
        Ok(())
    }

    fn call_tool(&mut self, env: &Env) -> (event: GeneratedToolEvent)
        requires
            old(self).wf(),
            env.config.ready(),
        ensures
            final(self).wf(),
            final(self).nodes@ == old(self).nodes@,
            final(self).sessions@ == old(self).sessions@,
            forall|d: Draws| #[trigger]
                extends(d, final(self).drawn()) ==> extends(d, old(self).drawn()) && tool_call(
                    d,
                    *env,
                    old(self).plan(),
                ) == (event@, final(self).plan()),
    {
        let word = self.word();
        let class = &env.config.tool_classes[choose_tool(env, word)];
        let mut latency_ms = self.sample(&class.latency_ms);
        let mut result_tokens = self.sample(&class.result_tokens);
        let failed = self.chance(&class.error_probability);
        let retried = failed && self.chance(&env.config.retry_probability);
        if retried {
            let more_latency = self.sample(&class.latency_ms);
            latency_ms = latency_ms.saturating_add(more_latency);
            let more_result = self.sample(&class.result_tokens);
            result_tokens = result_tokens.saturating_add(more_result);
        }
        GeneratedToolEvent { class: class.name.clone(), latency_ms, result_tokens, failed, retried }
    }

    fn call_tools(
        &mut self,
        env: &Env,
        progress: &mut Progress,
        turn: usize,
        count: usize,
    ) -> (result: Result<(Vec<GeneratedToolEvent>, u64), PlanError>)
        requires
            old(self).wf(),
            env.config.ready(),
            old(progress).state.stable_blocks <= old(progress).state.blocks@.len(),
        ensures
            final(self).wf(),
            final(self).sessions@ == old(self).sessions@,
            final(self).nodes@ == old(self).nodes@,
            match result {
                Ok((events, longest)) => {
                    &&& final(progress).state.session_id == old(progress).state.session_id
                    &&& final(progress).state.stable_blocks <= final(progress).state.blocks@.len()
                    &&& final(progress).state.window_epoch == old(progress).state.window_epoch
                    &&& forall|d: Draws| #[trigger]
                        extends(d, final(self).drawn()) ==> extends(d, old(self).drawn()) && tool_calls(
                            d,
                            *env,
                            course(*old(self), *old(progress)),
                            turn as nat,
                            count as nat,
                        ) == Ok::<(Seq<ToolEventView>, u64, Course), PlanError>(
                            (event_views(events@), longest, course(*final(self), *final(progress))),
                        )
                },
                Err(error) => forall|d: Draws| #[trigger]
                    extends(d, final(self).drawn()) ==> extends(d, old(self).drawn()) && tool_calls(
                        d,
                        *env,
                        course(*old(self), *old(progress)),
                        turn as nat,
                        count as nat,
                    ) == Err::<(Seq<ToolEventView>, u64, Course), PlanError>(error),
            },
    {
        let mut events: Vec<GeneratedToolEvent> = Vec::new();
        let mut longest: u64 = 0;
        let mut i: usize = 0;
        let ghost start = course(*old(self), *old(progress));
        assert(event_views(events@) =~= Seq::<ToolEventView>::empty());
        while i < count
            invariant
                i <= count,
                self.wf(),
                env.config.ready(),
                self.sessions@ == old(self).sessions@,
                self.nodes@ == old(self).nodes@,
                start == course(*old(self), *old(progress)),
                progress.state.session_id == old(progress).state.session_id,
                progress.state.stable_blocks <= progress.state.blocks@.len(),
                progress.state.window_epoch == old(progress).state.window_epoch,
                forall|d: Draws| #[trigger]
                    extends(d, self.drawn()) ==> extends(d, old(self).drawn()) && tool_calls(
                        d,
                        *env,
                        start,
                        turn as nat,
                        i as nat,
                    ) == Ok::<(Seq<ToolEventView>, u64, Course), PlanError>(
                        (event_views(events@), longest, course(*self, *progress)),
                    ),
            decreases count - i,
        {
            let event = self.call_tool(env);
            let scope = tool_text(
                progress.state.session_id.as_str(),
                turn,
                i,
                event.class.as_str(),
                event.failed,
            );
            if let Err(error) = self.extend(&env.config, &mut progress.state, scope.as_str(), event.result_tokens) {
                proof {
                    assert forall|d: Draws| #[trigger] extends(d, self.drawn()) implies extends(
                        d,
                        old(self).drawn(),
                    ) && tool_calls(d, *env, start, turn as nat, count as nat) == Err::<
                        (Seq<ToolEventView>, u64, Course),
                        PlanError,
                    >(error) by {
                        assert(tool_calls(d, *env, start, turn as nat, i as nat + 1) == Err::<
                            (Seq<ToolEventView>, u64, Course),
                            PlanError,
                        >(error));
                        lemma_tools_keep_failing(d, *env, start, turn as nat, i as nat + 1, count as nat);
                    }
                }
                return Err(error);
            }
            if event.latency_ms > longest {
                longest = event.latency_ms;
            }
            let ghost before = events@;
            events.push(event);
            assert(event_views(events@) =~= event_views(before).push(event@));
            i += 1;
        }
        Ok((events, longest))
    }

    fn follow_tools(
        &mut self,
        env: &Env,
        progress: &mut Progress,
        turn: usize,
        node: usize,
        parallel: bool,
    ) -> (result: Result<(), PlanError>)
        requires
            old(self).wf(),
            env.config.ready(),
            node < old(self).nodes@.len(),
            old(progress).state.stable_blocks <= old(progress).state.blocks@.len(),
        ensures
            final(self).wf(),
            final(self).sessions@ == old(self).sessions@,
            match result {
                Ok(()) => {
                    &&& final(self).nodes@.len() == old(self).nodes@.len()
                    &&& final(progress).state.session_id == old(progress).state.session_id
                    &&& final(progress).state.stable_blocks <= final(progress).state.blocks@.len()
                    &&& final(progress).state.window_epoch == old(progress).state.window_epoch
                    &&& forall|d: Draws| #[trigger]
                        extends(d, final(self).drawn()) ==> extends(d, old(self).drawn()) && after_tools(
                            d,
                            *env,
                            course(*old(self), *old(progress)),
                            turn as nat,
                            node,
                            parallel,
                        ) == Ok::<Course, PlanError>(course(*final(self), *final(progress)))
                },
                Err(error) => forall|d: Draws| #[trigger]
                    extends(d, final(self).drawn()) ==> extends(d, old(self).drawn()) && after_tools(
                        d,
                        *env,
                        course(*old(self), *old(progress)),
                        turn as nat,
                        node,
                        parallel,
                    ) == Err::<Course, PlanError>(error),
            },
    {
        proof {
            reveal(after_tools);
        }
        let sampled: u64 = if parallel {
            self.sample(&env.config.parallel_count)
        } else {
            1
        };
        if sampled > usize::MAX as u64 {
            return Err(PlanError::ToolsTooMany);
        }
        let count: usize = if parallel && sampled < 2 {
            2
        } else {
            sampled as usize
        };
        let (events, longest) = match self.call_tools(env, progress, turn, count) {
            Ok(called) => called,
            Err(error) => {
                return Err(error);
            },
        };
        let ghost called = *self;
        let ghost paused = *progress;
        self.nodes[node].tool_events = events;
        progress.dependencies.clear();
        progress.dependencies.push(node);
        progress.delay_ms = longest;
        progress.trigger = "tool_result";
        proof {
            assert(progress.dependencies@ =~= seq![node]);
            let wanted = NodeView { tool_events: event_views(events@), ..called.plan().nodes[node as int] };
            assert(self.nodes@[node as int]@ =~= wanted);
            assert(node_views(self.nodes@) =~= called.plan().nodes.update(node as int, wanted));
            assert(self.plan() == Plan {
                nodes: called.plan().nodes.update(node as int, wanted),
                ..called.plan()
            });
            assert(self.drawn() == called.drawn());
        }
        Ok(())
    }

    fn spawn(
        &mut self,
        env: &Env,
        place: &Place,
        session_id: &String,
        node: usize,
        count: usize,
    ) -> (result: Result<(Vec<usize>, Vec<String>), PlanError>)
        requires
            old(self).wf(),
            env.config.ready(),
            place.depth < env.config.max_depth,
        ensures
            final(self).wf(),
            match result {
                Ok((finals, ids)) => {
                    &&& final(self).nodes@.len() >= old(self).nodes@.len()
                    &&& final(self).sessions@.len() >= old(self).sessions@.len()
                    &&& forall|d: Draws| #[trigger]
                        extends(d, final(self).drawn()) ==> extends(d, old(self).drawn()) && children(
                            d,
                            *env,
                            old(self).plan(),
                            *place,
                            session_id@,
                            node,
                            count as nat,
                        ) == Ok::<(Seq<usize>, Seq<Seq<char>>, Plan), PlanError>(
                            (finals@, texts(ids@), final(self).plan()),
                        )
                },
                Err(error) => forall|d: Draws| #[trigger]
                    extends(d, final(self).drawn()) ==> extends(d, old(self).drawn()) && children(
                        d,
                        *env,
                        old(self).plan(),
                        *place,
                        session_id@,
                        node,
                        count as nat,
                    ) == Err::<(Seq<usize>, Seq<Seq<char>>, Plan), PlanError>(error),
            },
        decreases room(*env, place.depth), 0nat, count as nat,
    {
        let mut finals: Vec<usize> = Vec::new();
        let mut ids: Vec<String> = Vec::new();
        let mut i: usize = 0;
        let ghost start = self.plan();
        proof {
            assert(texts(ids@) =~= Seq::<Seq<char>>::empty());
            assert forall|d: Draws| #[trigger] extends(d, self.drawn()) implies children(
                d,
                *env,
                start,
                *place,
                session_id@,
                node,
                0,
            ) == Ok::<(Seq<usize>, Seq<Seq<char>>, Plan), PlanError>((finals@, texts(ids@), self.plan())) by {
                lemma_children_unfold(d, *env, start, *place, session_id@, node, 0);
            }
        }
        while i < count
            invariant
                i <= count,
                self.wf(),
                env.config.ready(),
                place.depth < env.config.max_depth,
                start == old(self).plan(),
                self.nodes@.len() >= old(self).nodes@.len(),
                self.sessions@.len() >= old(self).sessions@.len(),
                forall|d: Draws| #[trigger]
                    extends(d, self.drawn()) ==> extends(d, old(self).drawn()) && children(
                        d,
                        *env,
                        start,
                        *place,
                        session_id@,
                        node,
                        i as nat,
                    ) == Ok::<(Seq<usize>, Seq<Seq<char>>, Plan), PlanError>((finals@, texts(ids@), self.plan())),
            decreases count - i,
        {
            let delay_ms = self.sample(&env.config.spawn_delay_ms);
            let child_index = self.sessions.len();
            let child = Place {
                depth: place.depth + 1,
                arrival_ms: None,
                top_level_session_index: place.top_level_session_index,
                top_level_stream_slot: place.top_level_stream_slot,
            };
            let mut dependencies: Vec<usize> = Vec::new();
            dependencies.push(node);
            assert(dependencies@ =~= seq![node]);
            match self.generate_session(env, &child, Some(session_id.clone()), dependencies, delay_ms) {
                Ok(Some(last)) => {
                    finals.push(last);
                    let id = self.sessions[child_index].session_id.clone();
                    let ghost before = ids@;
                    ids.push(id);
                    assert(texts(ids@) =~= texts(before).push(id@));
                    assert(self.plan().sessions[child_index as int].session_id == id@);
                },
                Ok(None) => {},
                Err(error) => {
                    proof {
                        assert forall|d: Draws| #[trigger] extends(d, self.drawn()) implies extends(
                            d,
                            old(self).drawn(),
                        ) && children(d, *env, start, *place, session_id@, node, count as nat) == Err::<
                            (Seq<usize>, Seq<Seq<char>>, Plan),
                            PlanError,
                        >(error) by {
                            lemma_children_unfold(d, *env, start, *place, session_id@, node, i as nat + 1);
                            assert(children(d, *env, start, *place, session_id@, node, i as nat + 1) == Err::<
                                (Seq<usize>, Seq<Seq<char>>, Plan),
                                PlanError,
                            >(error));
                            lemma_children_keep_failing(
                                d,
                                *env,
                                start,
                                *place,
                                session_id@,
                                node,
                                i as nat + 1,
                                count as nat,
                            );
                        }
                    }
                    return Err(error);
                },
            }
            proof {
                assert forall|d: Draws| #[trigger] extends(d, self.drawn()) implies extends(d, old(self).drawn())
                    && children(d, *env, start, *place, session_id@, node, i as nat + 1) == Ok::<
                    (Seq<usize>, Seq<Seq<char>>, Plan),
                    PlanError,
                >((finals@, texts(ids@), self.plan())) by {
                    lemma_children_unfold(d, *env, start, *place, session_id@, node, i as nat + 1);
                }
            }
            i += 1;
        }
        Ok((finals, ids))
    }

    fn follow_delegation(
        &mut self,
        env: &Env,
        progress: &mut Progress,
        place: &Place,
        turn: usize,
        node: usize,
        swarm: bool,
    ) -> (result: Result<(), PlanError>)
        requires
            old(self).wf(),
            env.config.ready(),
            place.depth < env.config.max_depth,
            node < old(self).nodes@.len(),
            old(progress).state.stable_blocks <= old(progress).state.blocks@.len(),
        ensures
            final(self).wf(),
            match result {
                Ok(()) => {
                    &&& final(self).nodes@.len() >= old(self).nodes@.len()
                    &&& final(self).sessions@.len() >= old(self).sessions@.len()
                    &&& final(progress).state.session_id == old(progress).state.session_id
                    &&& final(progress).state.stable_blocks <= final(progress).state.blocks@.len()
                    &&& final(progress).state.window_epoch == old(progress).state.window_epoch
                    &&& forall|d: Draws| #[trigger]
                        extends(d, final(self).drawn()) ==> extends(d, old(self).drawn()) && after_delegation(
                            d,
                            *env,
                            course(*old(self), *old(progress)),
                            *place,
                            turn as nat,
                            node,
                            swarm,
                        ) == Ok::<Course, PlanError>(course(*final(self), *final(progress)))
                },
                Err(error) => forall|d: Draws| #[trigger]
                    extends(d, final(self).drawn()) ==> extends(d, old(self).drawn()) && after_delegation(
                        d,
                        *env,
                        course(*old(self), *old(progress)),
                        *place,
                        turn as nat,
                        node,
                        swarm,
                    ) == Err::<Course, PlanError>(error),
            },
        decreases room(*env, place.depth), 1nat, 0nat,
    {
        broadcast use lemma_after_delegation_unfold;

        let config = &env.config;
        let sampled: u64 = if swarm {
            self.sample(&config.fanout)
        } else {
            1
        };
        if sampled > usize::MAX as u64 {
            return Err(PlanError::FanoutTooLarge);
        }
        let wanted: usize = if swarm && sampled < 2 {
            2
        } else {
            sampled as usize
        };
        let available = config.max_sessions.saturating_sub(self.sessions.len());
        let count = if wanted < available {
            wanted
        } else {
            available
        };
        assert(count == child_count(*env, self.plan(), wanted as nat));
        let blocking = self.chance(&config.blocking_probability);
        let (finals, ids) = match self.spawn(env, place, &progress.state.session_id, node, count) {
            Ok(spawned) => spawned,
            Err(error) => {
                return Err(error);
            },
        };
        let ghost spawned = *self;
        self.nodes[node].spawned_session_ids = ids;
        proof {
            let changed = NodeView { spawned_session_ids: texts(ids@), ..spawned.plan().nodes[node as int] };
            assert(self.nodes@[node as int]@ =~= changed);
            assert(node_views(self.nodes@) =~= spawned.plan().nodes.update(node as int, changed));
            assert(self.plan() == Plan {
                nodes: spawned.plan().nodes.update(node as int, changed),
                ..spawned.plan()
            });
            assert(self.drawn() == spawned.drawn());
        }
        let join_tokens = self.sample(&config.tool_result_tokens);
        let scope = part_text(progress.state.session_id.as_str(), ":join:", turn);
        if let Err(error) = self.extend(config, &mut progress.state, scope.as_str(), join_tokens) {
            return Err(error);
        }
        if blocking && finals.len() > 0 {
            progress.dependencies = finals;
        } else {
            progress.dependencies.clear();
            progress.dependencies.push(node);
            assert(progress.dependencies@ =~= seq![node]);
        }
        progress.delay_ms = self.sample(&config.spawn_delay_ms);
        progress.trigger = "tool_result";
        Ok(())
    }

    fn take_turn(
        &mut self,
        env: &Env,
        progress: &mut Progress,
        place: &Place,
        turn: usize,
        turns: usize,
    ) -> (result: Result<bool, PlanError>)
        requires
            old(self).wf(),
            env.config.ready(),
            turn < turns,
            old(progress).state.stable_blocks <= old(progress).state.blocks@.len(),
            old(progress).state.window_epoch <= turn,
        ensures
            final(self).wf(),
            match result {
                Ok(complete) => {
                    &&& final(self).nodes@.len() >= old(self).nodes@.len()
                    &&& final(self).sessions@.len() >= old(self).sessions@.len()
                    &&& final(progress).state.session_id == old(progress).state.session_id
                    &&& final(progress).state.stable_blocks <= final(progress).state.blocks@.len()
                    &&& final(progress).state.window_epoch <= turn + 1
                    &&& forall|d: Draws| #[trigger]
                        extends(d, final(self).drawn()) ==> extends(d, old(self).drawn()) && one_turn(
                            d,
                            *env,
                            course(*old(self), *old(progress)),
                            *place,
                            turn as nat,
                            turns as nat,
                        ) == Ok::<(Course, bool), PlanError>((course(*final(self), *final(progress)), complete))
                },
                Err(error) => forall|d: Draws| #[trigger]
                    extends(d, final(self).drawn()) ==> extends(d, old(self).drawn()) && one_turn(
                        d,
                        *env,
                        course(*old(self), *old(progress)),
                        *place,
                        turn as nat,
                        turns as nat,
                    ) == Err::<(Course, bool), PlanError>(error),
            },
        decreases room(*env, place.depth), 2nat, 0nat,
    {
        broadcast use lemma_one_turn_unfold;

        if let Err(error) = self.maybe_compact(env, progress, turn, place.arrival_ms) {
            return Err(error);
        }
        let (node, action) = match self.answer(env, progress, turn, turns, place.depth, place.arrival_ms) {
            Ok(answer) => answer,
            Err(error) => {
                return Err(error);
            },
        };
        let followed = match action {
            NextAction::Complete => Ok(()),
            NextAction::Text => self.follow_text(env, progress, turn, node),
            NextAction::Tool => self.follow_tools(env, progress, turn, node, false),
            NextAction::ParallelTools => self.follow_tools(env, progress, turn, node, true),
            NextAction::Subagent => self.follow_delegation(env, progress, place, turn, node, false),
            NextAction::Swarm => self.follow_delegation(env, progress, place, turn, node, true),
        };
        match followed {
            Ok(()) => Ok(action == NextAction::Complete),
            Err(error) => Err(error),
        }
    }

    fn open_session(
        &mut self,
        env: &Env,
        place: &Place,
        parent: Option<String>,
        dependencies: Vec<usize>,
        delay_ms: u64,
    ) -> (result: Result<Progress, PlanError>)
        requires
            old(self).wf(),
            env.config.ready(),
        ensures
            final(self).wf(),
            match result {
                Ok(progress) => {
                    &&& final(self).nodes@.len() == old(self).nodes@.len()
                    &&& final(self).sessions@.len() == old(self).sessions@.len() + 1
                    &&& progress.state.stable_blocks <= progress.state.blocks@.len()
                    &&& progress.state.window_epoch == 0
                    &&& forall|d: Draws| #[trigger]
                        extends(d, final(self).drawn()) ==> extends(d, old(self).drawn()) && opened(
                            d,
                            *env,
                            old(self).plan(),
                            *place,
                            optional_text(parent),
                            dependencies@,
                            delay_ms,
                        ) == Ok::<Course, PlanError>(course(*final(self), progress))
                },
                Err(error) => forall|d: Draws| #[trigger]
                    extends(d, final(self).drawn()) ==> extends(d, old(self).drawn()) && opened(
                        d,
                        *env,
                        old(self).plan(),
                        *place,
                        optional_text(parent),
                        dependencies@,
                        delay_ms,
                    ) == Err::<Course, PlanError>(error),
            },
    {
        proof {
            reveal(opened);
        }
        let config = &env.config;
        let ghost entry = self.plan();
        let mut session_id = "generated-".to_string();
        session_id.append(hexadecimal_text(config.seed, 16).as_str());
        session_id.append("-session-");
        session_id.append(decimal_text(self.sessions.len() as u64).as_str());
        assert(session_id@ == session_name(*config, entry.sessions.len()));
        let session = GeneratedSession {
            session_id: session_id.clone(),
            parent_session_id: clone_optional(&parent),
            depth: place.depth,
            top_level_session_index: place.top_level_session_index,
            top_level_stream_slot: place.top_level_stream_slot,
        };
        self.sessions.push(session);
        proof {
            let view = SessionView {
                session_id: session_name(*config, entry.sessions.len()),
                parent_session_id: optional_text(parent),
                depth: place.depth,
                top_level_session_index: place.top_level_session_index,
                top_level_stream_slot: place.top_level_stream_slot,
            };
            assert(session@ == view);
            assert(session_views(self.sessions@) =~= entry.sessions.push(view));
            assert(self.plan() == Plan { sessions: entry.sessions.push(view), ..entry });
            assert(self.drawn() == old(self).drawn());
        }
        let repository_tokens = self.sample(&config.repository_tokens);
        let session_tokens = self.sample(&config.session_tokens);
        let blocks = self.shared_prefix.clone();
        assert(blocks@ =~= self.shared_prefix@);
        let mut state = SessionState {
            session_id,
            parent_session_id: parent,
            blocks,
            stable_blocks: 0,
            window_epoch: 0,
        };
        let mut repository = "root:".to_string();
        repository.append(decimal_text(place.top_level_session_index as u64).as_str());
        repository.append(":repository");
        if let Err(error) = self.extend(config, &mut state, repository.as_str(), repository_tokens) {
            return Err(error);
        }
        let mut environment = "session:".to_string();
        environment.append(state.session_id.as_str());
        environment.append(":environment");
        if let Err(error) = self.extend(config, &mut state, environment.as_str(), session_tokens) {
            return Err(error);
        }
        state.stable_blocks = state.blocks.len();
        let user_tokens = self.sample(&config.user_tokens);
        let scope = part_text(state.session_id.as_str(), ":user:", 0);
        if let Err(error) = self.extend(config, &mut state, scope.as_str(), user_tokens) {
            return Err(error);
        }
        Ok(Progress { state, dependencies, delay_ms, trigger: "user_message", latest: None })
    }

    fn generate_session(
        &mut self,
        env: &Env,
        place: &Place,
        parent: Option<String>,
        dependencies: Vec<usize>,
        delay_ms: u64,
    ) -> (result: Result<Option<usize>, PlanError>)
        requires
            old(self).wf(),
            env.config.ready(),
        ensures
            final(self).wf(),
            match result {
                Ok(last) => {
                    &&& final(self).nodes@.len() >= old(self).nodes@.len()
                    &&& final(self).sessions@.len() >= old(self).sessions@.len()
                    &&& last is Some ==> final(self).sessions@.len() > old(self).sessions@.len()
                    &&& forall|d: Draws| #[trigger]
                        extends(d, final(self).drawn()) ==> extends(d, old(self).drawn()) && session(
                            d,
                            *env,
                            old(self).plan(),
                            *place,
                            optional_text(parent),
                            dependencies@,
                            delay_ms,
                        ) == Ok::<(Option<usize>, Plan), PlanError>((last, final(self).plan()))
                },
                Err(error) => forall|d: Draws| #[trigger]
                    extends(d, final(self).drawn()) ==> extends(d, old(self).drawn()) && session(
                        d,
                        *env,
                        old(self).plan(),
                        *place,
                        optional_text(parent),
                        dependencies@,
                        delay_ms,
                    ) == Err::<(Option<usize>, Plan), PlanError>(error),
            },
        decreases room(*env, place.depth), 4nat, 0nat,
    {
        broadcast use lemma_session_unfold;

        let config = &env.config;
        let ghost parent_text = optional_text(parent);
        let ghost waits = dependencies@;
        if self.sessions.len() >= config.max_sessions || self.nodes.len() >= config.max_nodes {
            return Ok(None);
        }
        let mut progress = match self.open_session(env, place, parent, dependencies, delay_ms) {
            Ok(progress) => progress,
            Err(error) => {
                return Err(error);
            },
        };
        let sampled = if place.depth == 0 {
            self.sample(&config.turns)
        } else {
            self.sample(&config.subagent_turns)
        };
        if sampled > usize::MAX as u64 {
            return Err(PlanError::TurnsTooMany);
        }
        let turns = sampled as usize;
        let ghost start = course(*self, progress);
        let ghost first = *self;
        let ghost kind = if place.depth == 0 {
            config.turns
        } else {
            config.subagent_turns
        };
        let mut turn: usize = 0;
        let mut complete = false;
        while turn < turns && !complete && self.nodes.len() < config.max_nodes
            invariant
                turn <= turns,
                self.wf(),
                env.config.ready(),
                *config == env.config,
                self.nodes@.len() >= old(self).nodes@.len(),
                self.sessions@.len() > old(self).sessions@.len(),
                progress.state.stable_blocks <= progress.state.blocks@.len(),
                !complete ==> progress.state.window_epoch <= turn,
                forall|d: Draws| #[trigger]
                    extends(d, first.drawn()) ==> extends(d, old(self).drawn()) && ({
                        let opening = opened(d, *env, old(self).plan(), *place, parent_text, waits, delay_ms);
                        &&& opening is Ok
                        &&& take(d, opening->Ok_0.plan, kind) == (turns as u64, start.plan)
                        &&& start == Course { plan: start.plan, ..opening->Ok_0 }
                    }),
                parent_text == optional_text(parent),
                waits == dependencies@,
                old(self).plan().sessions.len() < config.max_sessions,
                old(self).plan().nodes.len() < config.max_nodes,
                kind == if place.depth == 0 {
                    config.turns
                } else {
                    config.subagent_turns
                },
                forall|d: Draws| #[trigger]
                    extends(d, self.drawn()) ==> extends(d, first.drawn()) && turns_from(
                        d,
                        *env,
                        start,
                        *place,
                        0,
                        turns as nat,
                    ) == if complete {
                        Ok::<Course, PlanError>(course(*self, progress))
                    } else {
                        turns_from(d, *env, course(*self, progress), *place, turn as nat, turns as nat)
                    },
            decreases turns - turn,
        {
            let ghost now = course(*self, progress);
            let ghost begun = *self;
            match self.take_turn(env, &mut progress, place, turn, turns) {
                Ok(done) => {
                    complete = done;
                    proof {
                        assert forall|d: Draws| #[trigger] extends(d, self.drawn()) implies extends(
                            d,
                            first.drawn(),
                        ) && turns_from(d, *env, start, *place, 0, turns as nat) == if complete {
                            Ok::<Course, PlanError>(course(*self, progress))
                        } else {
                            turns_from(
                                d,
                                *env,
                                course(*self, progress),
                                *place,
                                turn as nat + 1,
                                turns as nat,
                            )
                        } by {
                            assert(extends(d, begun.drawn()));
                            lemma_turns_from_unfold(d, *env, now, *place, turn as nat, turns as nat);
                        }
                    }
                },
                Err(error) => {
                    proof {
                        assert forall|d: Draws| #[trigger] extends(d, self.drawn()) implies extends(
                            d,
                            old(self).drawn(),
                        ) && session(
                            d,
                            *env,
                            old(self).plan(),
                            *place,
                            parent_text,
                            waits,
                            delay_ms,
                        ) == Err::<(Option<usize>, Plan), PlanError>(error) by {
                            assert(extends(d, begun.drawn()));
                            lemma_turns_from_unfold(d, *env, now, *place, turn as nat, turns as nat);
                            assert(extends(d, first.drawn()));
                            lemma_session_unfold(d, *env, old(self).plan(), *place, parent_text, waits, delay_ms);
                        }
                    }
                    return Err(error);
                },
            }
            turn += 1;
        }
        proof {
            assert forall|d: Draws| #[trigger] extends(d, self.drawn()) implies turns_from(
                d,
                *env,
                start,
                *place,
                0,
                turns as nat,
            ) == Ok::<Course, PlanError>(course(*self, progress)) by {
                lemma_turns_from_unfold(d, *env, course(*self, progress), *place, turn as nat, turns as nat);
            }
        }
        match progress.latest {
            Some(last) => Ok(Some(last)),
            None => Err(PlanError::NoModelTurn),
        }
    }

    /// Starts a plan.
    pub(crate) fn start(&mut self, config: &ResolvedGeneratorConfig) -> (result: Result<(), PlanError>)
        requires
            old(self).wf(),
            config.ready(),
            old(self).plan() == blank_plan(),
        ensures
            final(self).wf(),
            match result {
                Ok(()) => forall|d: Draws| #[trigger]
                    extends(d, final(self).drawn()) ==> extends(d, old(self).drawn()) && started(d, *config) == Ok::<
                        Plan,
                        PlanError,
                    >(final(self).plan()),
                Err(error) => forall|d: Draws| #[trigger]
                    extends(d, final(self).drawn()) ==> extends(d, old(self).drawn()) && started(d, *config) == Err::<
                        Plan,
                        PlanError,
                    >(error),
            },
    {
        let system_tokens = self.sample(&config.system_prefix_tokens);
        let tool_tokens = self.sample(&config.tool_catalog_tokens);
        let mut prefix = match self.segment(config, "shared:system", system_tokens) {
            Ok(blocks) => blocks,
            Err(error) => {
                return Err(error);
            },
        };
        let mut tools = match self.segment(config, "shared:tools", tool_tokens) {
            Ok(blocks) => blocks,
            Err(error) => {
                return Err(error);
            },
        };
        prefix.append(&mut tools);
        self.shared_prefix = prefix;
        Ok(())
    }

    /// Plans the top-level sessions.
    pub(crate) fn generate_streams(&mut self, env: &Env) -> (result: Result<(), PlanError>)
        requires
            old(self).wf(),
            env.config.ready(),
        ensures
            final(self).wf(),
            match result {
                Ok(()) => forall|d: Draws| #[trigger]
                    extends(d, final(self).drawn()) ==> {
                        &&& extends(d, old(self).drawn())
                        &&& top_level(d, *env, old(self).plan(), env.config.num_sessions as nat) is Ok
                        &&& top_level(d, *env, old(self).plan(), env.config.num_sessions as nat)->Ok_0.1
                            == final(self).plan()
                    },
                Err(error) => forall|d: Draws| #[trigger]
                    extends(d, final(self).drawn()) ==> extends(d, old(self).drawn()) && top_level(
                        d,
                        *env,
                        old(self).plan(),
                        env.config.num_sessions as nat,
                    ) == Err::<(Seq<Option<usize>>, Plan), PlanError>(error),
            },
    {
        proof {
            reveal(top_level);
        }
        let config = &env.config;
        let ghost start = self.plan();
        let width = config.concurrent_sessions;
        let mut streams: Vec<Option<usize>> = Vec::with_capacity(width);
        while streams.len() < width
            invariant
                streams@.len() <= width,
                forall|i: int| 0 <= i < streams@.len() ==> #[trigger] streams@[i] is None,
            decreases width - streams@.len(),
        {
            streams.push(None);
        }
        assert(streams@ =~= Seq::new(width as nat, |i: int| None));
        let total = config.num_sessions;
        let mut index: usize = 0;
        while index < total
            invariant
                index <= total,
                total == env.config.num_sessions,
                *config == env.config,
                width == env.config.concurrent_sessions,
                streams@.len() == width,
                self.wf(),
                env.config.ready(),
                start == old(self).plan(),
                forall|d: Draws| #[trigger]
                    extends(d, self.drawn()) ==> extends(d, old(self).drawn()) && top_level(
                        d,
                        *env,
                        start,
                        index as nat,
                    ) == Ok::<(Seq<Option<usize>>, Plan), PlanError>((streams@, self.plan())),
            decreases total - index,
        {
            proof {
                reveal(top_level);
            }
            let slot = index % width;
            let mut dependencies: Vec<usize> = Vec::new();
            let mut delay_ms: u64 = 0;
            let mut arrival_ms: Option<u64> = None;
            match streams[slot] {
                Some(last) => {
                    dependencies.push(last);
                    assert(dependencies@ =~= seq![last]);
                    delay_ms = self.sample(&config.restart_delay_ms);
                },
                None => {
                    assert(dependencies@ =~= Seq::<usize>::empty());
                    match (slot as u64).checked_mul(config.startup_interval_ms) {
                        Some(arrival) => {
                            arrival_ms = Some(arrival);
                        },
                        None => {
                            proof {
                                assert forall|d: Draws| #[trigger] extends(d, self.drawn()) implies extends(
                                    d,
                                    old(self).drawn(),
                                ) && top_level(d, *env, start, total as nat) == Err::<
                                    (Seq<Option<usize>>, Plan),
                                    PlanError,
                                >(PlanError::StartupOverflow) by {
                                    assert(top_level(d, *env, start, index as nat + 1) == Err::<
                                        (Seq<Option<usize>>, Plan),
                                        PlanError,
                                    >(PlanError::StartupOverflow));
                                    lemma_top_level_keeps_failing(d, *env, start, index as nat + 1, total as nat);
                                }
                            }
                            return Err(PlanError::StartupOverflow);
                        },
                    }
                },
            }
            let place = Place {
                depth: 0,
                arrival_ms,
                top_level_session_index: index,
                top_level_stream_slot: slot,
            };
            let result = match self.generate_session(env, &place, None, dependencies, delay_ms) {
                Ok(Some(last)) => Ok(last),
                Ok(None) => Err(PlanError::SessionPrevented { index }),
                Err(error) => Err(error),
            };
            match result {
                Ok(last) => {
                    streams.set(slot, Some(last));
                },
                Err(error) => {
                    proof {
                        assert forall|d: Draws| #[trigger] extends(d, self.drawn()) implies extends(
                            d,
                            old(self).drawn(),
                        ) && top_level(d, *env, start, total as nat) == Err::<
                            (Seq<Option<usize>>, Plan),
                            PlanError,
                        >(error) by {
                            assert(top_level(d, *env, start, index as nat + 1) == Err::<
                                (Seq<Option<usize>>, Plan),
                                PlanError,
                            >(error));
                            lemma_top_level_keeps_failing(d, *env, start, index as nat + 1, total as nat);
                        }
                    }
                    return Err(error);
                },
            }
            index += 1;
        }
        Ok(())
    }
}

proof fn lemma_tools_keep_failing(d: Draws, e: Env, c: Course, turn: nat, n: nat, m: nat)
    requires
        n <= m,
        tool_calls(d, e, c, turn, n) is Err,
    ensures
        tool_calls(d, e, c, turn, m) == tool_calls(d, e, c, turn, n),
    decreases m,
{
    if n < m {
        lemma_tools_keep_failing(d, e, c, turn, n, (m - 1) as nat);
    }
}

proof fn lemma_children_keep_failing(
    d: Draws,
    e: Env,
    p: Plan,
    place: Place,
    session_id: Seq<char>,
    node: usize,
    n: nat,
    m: nat,
)
    requires
        n <= m,
        children(d, e, p, place, session_id, node, n) is Err,
    ensures
        children(d, e, p, place, session_id, node, m) == children(d, e, p, place, session_id, node, n),
    decreases m,
{
    if n < m {
        lemma_children_keep_failing(d, e, p, place, session_id, node, n, (m - 1) as nat);
        lemma_children_unfold(d, e, p, place, session_id, node, m);
        lemma_children_unfold(d, e, p, place, session_id, node, n);
    }
}

proof fn lemma_top_level_keeps_failing(d: Draws, e: Env, p: Plan, n: nat, m: nat)
    requires
        n <= m,
        top_level(d, e, p, n) is Err,
    ensures
        top_level(d, e, p, m) == top_level(d, e, p, n),
    decreases m,
{
    reveal(top_level);
    if n < m {
        lemma_top_level_keeps_failing(d, e, p, n, (m - 1) as nat);
    }
}

impl<S: SampleSource> Builder<S> {
    /// Hands the source back.
    pub(crate) fn into_source(self) -> (source: S)
        requires
            self.wf(),
        ensures
            source.valid(),
            source.drawn() == self.drawn(),
    {
        self.source
    }

    /// Takes the builder apart.
    pub(crate) fn into_parts(self) -> (parts: (
        S,
        Vec<GeneratedSession>,
        Vec<GeneratedNode>,
        Vec<GeneratedCompactionOperation>,
    ))
        requires
            self.wf(),
        ensures
            parts.0.valid(),
            parts.0.drawn() == self.drawn(),
            session_views(parts.1@) == self.plan().sessions,
            node_views(parts.2@) == self.plan().nodes,
            operation_views(parts.3@) == self.plan().operations,
    {
        (self.source, self.sessions, self.nodes, self.operations)
    }
}

} // verus!
