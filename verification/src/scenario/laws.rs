//! What holds of every plan.

use crate::contracts::TraceManifest;
use crate::scenario::config::ResolvedGeneratorConfig;
use crate::scenario::distribution::UIntDistribution;
use crate::scenario::generate::{is_generated, is_scenario, is_sealed, plan_totals};
use crate::scenario::graph::{
    all_nest, dependency_failure, distinct_sessions, edge_failure, graph_failure, law_distinct_sessions_nest,
    node_failure, session_named,
};
use crate::scenario::model::{
    node_views, operation_views, session_views, AttemptView, CompactionExpectedEffect, GeneratedScenario, NodeView,
    OperationView, SessionView,
};
use crate::scenario::outline::{
    after_delegation, after_text, after_tools, answered, appended, attempt_effects, attempts, blank_plan,
    block_owner, children, compacted, drafted_node, first_free, labelled, labelled_blocks, labels_in_use,
    lemma_after_delegation_unfold, lemma_children_unfold, lemma_one_turn_unfold, lemma_session_unfold,
    lemma_turns_from_unfold, maybe_compacted, one_turn, opened, operated, planned, requested, retained_blocks,
    room, segment, session, session_name, started, take, take_chance, take_word, tool_call, tool_calls, top_level,
    turns_from, Course, Draft, Env, NextAction, Place, Plan, PlanError, Window,
};
use crate::scenario::steps::{
    has_values, is_possible, law_answers_join_the_context, law_blocking_parents_wait_for_their_children,
    law_compaction_comes_before_the_turn, law_requests_become_nodes, law_samples_are_possible,
    law_sessions_open_with_their_context, law_tool_phases_take_their_longest_call,
    law_users_think_before_they_write,
};
use crate::scenario::source::{seeded_draws, Ask, Draws, LogNormals};
use crate::text::{decimal, hexadecimal, law_decimals_differ};
use vstd::prelude::*;

verus! {

/// A session of the plan with the given identifier and parent.
pub open spec fn has_entry(sessions: Seq<SessionView>, id: Seq<char>, parent: Option<Seq<char>>) -> bool {
    exists|s: int|
        0 <= s < sessions.len() && (#[trigger] sessions[s]).session_id == id && sessions[s].parent_session_id
            == parent
}

/// A node is in order: it waits for earlier nodes or else arrives by itself; its input is whole
/// blocks and starts with the shared ones; its session is planned; only compaction attempts go
/// without an output budget.
pub open spec fn node_in_order(e: ResolvedGeneratorConfig, p: Plan, i: int) -> bool {
    let node = p.nodes[i];
    &&& forall|k: int| 0 <= k < node.dependencies.len() ==> (#[trigger] node.dependencies[k]) < i
    &&& node.dependencies.len() == 0 <==> node.initial_arrival_ms is Some
    &&& node.request.ordinal == i
    &&& node.request.trace_block_size == e.block_size
    &&& node.request.input_tokens == node.request.input_sequence_hashes.len() * e.block_size
    &&& p.prefix.len() <= node.request.input_sequence_hashes.len()
    &&& node.request.input_sequence_hashes.take(p.prefix.len() as int) == p.prefix
    &&& node.request.agent_context is Some
    &&& has_entry(
        p.sessions,
        node.request.agent_context->0.session_id,
        node.request.agent_context->0.parent_session_id,
    )
    &&& node.compaction_attempt is Some <==> node.output_budget_tokens is None
    &&& node.compaction_attempt is None ==> node.request.output_tokens > 0
}

/// A session is in order: its identifier tells its place; a top-level one has no parent; another
/// one lies one level below an earlier session of the same tree and stream.
pub open spec fn session_in_order(e: ResolvedGeneratorConfig, sessions: Seq<SessionView>, i: int) -> bool {
    let entry = sessions[i];
    &&& entry.session_id == session_name(e, i as nat)
    &&& entry.depth == 0 <==> entry.parent_session_id is None
    &&& entry.depth <= e.max_depth
    &&& entry.parent_session_id is Some ==> exists|s: int|
        0 <= s < i && (#[trigger] sessions[s]).session_id == entry.parent_session_id->0 && sessions[s].depth + 1
            == entry.depth && sessions[s].top_level_session_index == entry.top_level_session_index
            && sessions[s].top_level_stream_slot == entry.top_level_stream_slot
}

/// A compaction is in order: its attempts share its identity, count up from one, wait for each
/// other, and exactly one of them applies.
pub open spec fn operation_in_order(nodes: Seq<NodeView>, operation: OperationView) -> bool {
    &&& operation.expected_apply_count == 1
    &&& 1 <= operation.applied_attempt <= operation.attempts.len()
    &&& forall|k: int|
        0 <= k < operation.attempts.len() ==> is_attempt(nodes, operation, k, #[trigger] operation.attempts[k])
}

/// Node `at` is attempt `k`, counted from zero, of a compaction.
pub open spec fn is_attempt(nodes: Seq<NodeView>, operation: OperationView, k: int, at: usize) -> bool {
    let node = nodes[at as int];
    let attempt = node.compaction_attempt->0;
    &&& at < nodes.len()
    &&& node.compaction_attempt is Some
    &&& attempt.operation_id == operation.operation_id
    &&& attempt.phase == operation.phase
    &&& attempt.attempt == k + 1
    &&& attempt.expected_effect == CompactionExpectedEffect::ApplyOnce <==> k + 1 == operation.applied_attempt
    &&& attempt.abort_after_ms is Some <==> attempt.expected_effect == CompactionExpectedEffect::NoMutationAborted
    &&& node.output_budget_tokens is None
    &&& k > 0 ==> node.dependencies == seq![operation.attempts[k - 1]]
}

/// No two owners share a label.
pub open spec fn labels_differ(labels: Map<Seq<char>, u64>) -> bool {
    forall|a: Seq<char>, b: Seq<char>| #[trigger]
        labels.contains_key(a) && #[trigger] labels.contains_key(b) && a != b ==> labels[a] != labels[b]
}

/// All parts of a plan are in order, and it keeps to its limits.
pub open spec fn in_order(e: ResolvedGeneratorConfig, p: Plan) -> bool {
    &&& p.nodes.len() <= e.max_nodes
    &&& p.sessions.len() <= e.max_sessions
    &&& p.total_input_tokens <= e.max_total_input_tokens
    &&& p.total_input_tokens == plan_totals(p.nodes, p.nodes.len()).0
    &&& forall|i: int| 0 <= i < p.nodes.len() ==> #[trigger] node_in_order(e, p, i)
    &&& forall|i: int| 0 <= i < p.sessions.len() ==> #[trigger] session_in_order(e, p.sessions, i)
    &&& forall|i: int| 0 <= i < p.operations.len() ==> operation_in_order(p.nodes, #[trigger] p.operations[i])
    &&& labels_differ(p.labels)
}

/// Two nodes that differ in their tool events and spawned sessions at most.
pub open spec fn same_request(a: NodeView, b: NodeView) -> bool {
    b == NodeView { tool_events: b.tool_events, spawned_session_ids: b.spawned_session_ids, ..a }
}

/// `q` adds to `p` and takes nothing back.
pub open spec fn grows(p: Plan, q: Plan) -> bool {
    &&& q.prefix == p.prefix
    &&& p.sessions.len() <= q.sessions.len()
    &&& forall|i: int| 0 <= i < p.sessions.len() ==> q.sessions[i] == #[trigger] p.sessions[i]
    &&& p.nodes.len() <= q.nodes.len()
    &&& forall|i: int| 0 <= i < p.nodes.len() ==> same_request(#[trigger] p.nodes[i], q.nodes[i])
    &&& p.operations.len() <= q.operations.len()
    &&& forall|i: int| 0 <= i < p.operations.len() ==> q.operations[i] == #[trigger] p.operations[i]
    &&& forall|owner: Seq<char>| #[trigger]
        p.labels.contains_key(owner) ==> q.labels.contains_key(owner) && q.labels[owner] == p.labels[owner]
}

proof fn lemma_grows_transitive(p: Plan, q: Plan, r: Plan)
    requires
        grows(p, q),
        grows(q, r),
    ensures
        grows(p, r),
{
    assert forall|i: int| 0 <= i < p.sessions.len() implies r.sessions[i] == #[trigger] p.sessions[i] by {
        assert(q.sessions[i] == p.sessions[i]);
    }
    assert forall|i: int| 0 <= i < p.nodes.len() implies same_request(#[trigger] p.nodes[i], r.nodes[i]) by {
        assert(same_request(p.nodes[i], q.nodes[i]));
        assert(same_request(q.nodes[i], r.nodes[i]));
    }
    assert forall|i: int| 0 <= i < p.operations.len() implies r.operations[i] == #[trigger] p.operations[i] by {
        assert(q.operations[i] == p.operations[i]);
    }
}

/// The context of the session with index `k` in the plan.
spec fn window_fits(p: Plan, w: Window, k: int) -> bool {
    &&& 0 <= k < p.sessions.len()
    &&& p.sessions[k].session_id == w.session_id
    &&& p.sessions[k].parent_session_id == w.parent_session_id
    &&& p.prefix.len() <= w.stable_blocks <= w.blocks.len()
    &&& w.blocks.take(p.prefix.len() as int) == p.prefix
}

/// The place of the session with index `k` in the plan.
spec fn place_fits(p: Plan, place: Place, k: int) -> bool {
    &&& 0 <= k < p.sessions.len()
    &&& p.sessions[k].depth == place.depth
    &&& p.sessions[k].top_level_session_index == place.top_level_session_index
    &&& p.sessions[k].top_level_stream_slot == place.top_level_stream_slot
}

proof fn lemma_fits_grows(p: Plan, q: Plan, w: Window, place: Place, k: int)
    requires
        grows(p, q),
    ensures
        window_fits(p, w, k) ==> window_fits(q, w, k),
        place_fits(p, place, k) ==> place_fits(q, place, k),
{
    if 0 <= k < p.sessions.len() {
        assert(q.sessions[k] == p.sessions[k]);
    }
}

/// Using up numbers changes nothing else.
proof fn lemma_only_numbers(e: ResolvedGeneratorConfig, p: Plan, asked: Seq<Ask>)
    requires
        in_order(e, p),
    ensures
        in_order(e, (Plan { asked, ..p })),
        grows(p, (Plan { asked, ..p })),
{
    let q = Plan { asked, ..p };
    assert forall|i: int| 0 <= i < q.nodes.len() implies #[trigger] node_in_order(e, q, i) by {
        assert(node_in_order(e, p, i));
    }
}

proof fn lemma_labelled_in_order(e: ResolvedGeneratorConfig, p: Plan, owner: Seq<char>)
    requires
        in_order(e, p),
        labelled(e, p, owner) is Ok,
    ensures
        in_order(e, labelled(e, p, owner)->Ok_0.1),
        grows(p, labelled(e, p, owner)->Ok_0.1),
        labelled(e, p, owner)->Ok_0.1.labels.contains_key(owner),
        labelled(e, p, owner)->Ok_0.1.labels[owner] == labelled(e, p, owner)->Ok_0.0,
{
    let (label, q) = labelled(e, p, owner)->Ok_0;
    if !p.labels.contains_key(owner) {
        lemma_first_free_is_free(p.labels, e.seed, owner, 0);
        assert forall|a: Seq<char>, b: Seq<char>| #[trigger]
            q.labels.contains_key(a) && #[trigger] q.labels.contains_key(b) && a != b implies q.labels[a]
            != q.labels[b] by {
            if a == owner {
                assert(p.labels.contains_key(b) && p.labels[b] == q.labels[b]);
            } else if b == owner {
                assert(p.labels.contains_key(a) && p.labels[a] == q.labels[a]);
            }
        }
    }
    assert forall|i: int| 0 <= i < q.nodes.len() implies #[trigger] node_in_order(e, q, i) by {
        assert(node_in_order(e, p, i));
    }
}

proof fn lemma_first_free_is_free(labels: Map<Seq<char>, u64>, seed: u64, owner: Seq<char>, nonce: nat)
    ensures
        first_free(labels, seed, owner, nonce) matches Some(label) ==> !labels_in_use(labels).contains(label),
    decreases 0x1_0000_0000_0000_0000 - nonce,
{
    if nonce <= u64::MAX {
        lemma_first_free_is_free(labels, seed, owner, nonce + 1);
    }
}

spec fn carries_label(q: Plan, scope: Seq<char>, blocks: Seq<u64>, k: int) -> bool {
    let owner = block_owner(scope, k as nat);
    q.labels.contains_key(owner) && q.labels[owner] == blocks[k]
}

spec fn carries_labels(q: Plan, scope: Seq<char>, blocks: Seq<u64>) -> bool {
    forall|k: int| 0 <= k < blocks.len() ==> #[trigger] carries_label(q, scope, blocks, k)
}

proof fn lemma_blocks_in_order(e: ResolvedGeneratorConfig, p: Plan, scope: Seq<char>, n: nat)
    requires
        in_order(e, p),
        labelled_blocks(e, p, scope, n) is Ok,
    ensures
        in_order(e, labelled_blocks(e, p, scope, n)->Ok_0.1),
        grows(p, labelled_blocks(e, p, scope, n)->Ok_0.1),
        labelled_blocks(e, p, scope, n)->Ok_0.0.len() == n,
        carries_labels(labelled_blocks(e, p, scope, n)->Ok_0.1, scope, labelled_blocks(e, p, scope, n)->Ok_0.0),
    decreases n,
{
    if n > 0 {
        lemma_blocks_in_order(e, p, scope, (n - 1) as nat);
        let (before, q) = labelled_blocks(e, p, scope, (n - 1) as nat)->Ok_0;
        lemma_labelled_in_order(e, q, block_owner(scope, (n - 1) as nat));
        let (label, r) = labelled(e, q, block_owner(scope, (n - 1) as nat))->Ok_0;
        lemma_grows_transitive(p, q, r);
        let blocks = before.push(label);
        assert forall|k: int| 0 <= k < blocks.len() implies #[trigger] carries_label(r, scope, blocks, k) by {
            if k < n - 1 {
                assert(carries_label(q, scope, before, k));
            }
        }
        assert(carries_labels(r, scope, blocks));
    }
}

proof fn lemma_segment_in_order(e: ResolvedGeneratorConfig, p: Plan, scope: Seq<char>, tokens: u64)
    requires
        in_order(e, p),
        segment(e, p, scope, tokens) is Ok,
    ensures
        in_order(e, segment(e, p, scope, tokens)->Ok_0.1),
        grows(p, segment(e, p, scope, tokens)->Ok_0.1),
{
    lemma_blocks_in_order(e, p, scope, crate::numeric::ceil_div(tokens as nat, e.block_size as nat));
}

proof fn lemma_appended_in_order(e: ResolvedGeneratorConfig, p: Plan, w: Window, scope: Seq<char>, tokens: u64, k: int)
    requires
        in_order(e, p),
        window_fits(p, w, k),
        appended(e, p, w, scope, tokens) is Ok,
    ensures
        in_order(e, appended(e, p, w, scope, tokens)->Ok_0.1),
        grows(p, appended(e, p, w, scope, tokens)->Ok_0.1),
        window_fits(appended(e, p, w, scope, tokens)->Ok_0.1, appended(e, p, w, scope, tokens)->Ok_0.0, k),
{
    lemma_segment_in_order(e, p, scope, tokens);
    let (after, q) = appended(e, p, w, scope, tokens)->Ok_0;
    assert(q.sessions[k] == p.sessions[k]);
    assert(after.blocks.take(p.prefix.len() as int) =~= w.blocks.take(p.prefix.len() as int));
}

proof fn lemma_input_totals(before: Seq<NodeView>, after: Seq<NodeView>, n: nat)
    requires
        n <= before.len(),
        n <= after.len(),
        forall|i: int| 0 <= i < n ==> (#[trigger] before[i]).request.input_tokens == after[i].request.input_tokens,
    ensures
        plan_totals(before, n).0 == plan_totals(after, n).0,
    decreases n,
{
    if n > 0 {
        lemma_input_totals(before, after, (n - 1) as nat);
        assert(before[n - 1].request.input_tokens == after[n - 1].request.input_tokens);
    }
}

proof fn lemma_requested_in_order(e: ResolvedGeneratorConfig, p: Plan, w: Window, draft: Draft, k: int)
    requires
        in_order(e, p),
        window_fits(p, w, k),
        draft.attempt is Some <==> draft.budget_tokens is None,
        requested(e, p, w, draft) is Ok,
    ensures
        in_order(e, requested(e, p, w, draft)->Ok_0.1),
        grows(p, requested(e, p, w, draft)->Ok_0.1),
        requested(e, p, w, draft)->Ok_0.0 == p.nodes.len(),
        requested(e, p, w, draft)->Ok_0.1.nodes == p.nodes.push(drafted_node(e, p, w, draft)),
{
    let q = requested(e, p, w, draft)->Ok_0.1;
    let n = p.nodes.len() as int;
    assert(has_entry(q.sessions, w.session_id, w.parent_session_id)) by {
        assert(q.sessions[k].session_id == w.session_id);
    }
    assert(node_in_order(e, q, n)) by {
        let node = q.nodes[n];
        assert(node == drafted_node(e, p, w, draft));
        assert forall|j: int| 0 <= j < node.dependencies.len() implies (#[trigger] node.dependencies[j]) < n by {
            assert(draft.dependencies[j] < p.nodes.len());
        }
        assert(0 <= w.blocks.len() * e.block_size) by (nonlinear_arith);
    }
    assert(q.total_input_tokens == plan_totals(q.nodes, q.nodes.len()).0) by {
        assert(0 <= w.blocks.len() * e.block_size) by (nonlinear_arith);
        lemma_input_totals(p.nodes, q.nodes, p.nodes.len());
        assert(q.nodes[n] == drafted_node(e, p, w, draft));
    }
    assert forall|i: int| 0 <= i < q.nodes.len() implies #[trigger] node_in_order(e, q, i) by {
        if i < n {
            assert(node_in_order(e, p, i));
            assert(q.nodes[i] == p.nodes[i]);
        }
    }
    assert forall|i: int| 0 <= i < q.operations.len() implies operation_in_order(
        q.nodes,
        #[trigger] q.operations[i],
    ) by {
        lemma_operation_stays(p.nodes, q.nodes, p.operations[i]);
    }
}

proof fn lemma_operation_stays(before: Seq<NodeView>, after: Seq<NodeView>, operation: OperationView)
    requires
        operation_in_order(before, operation),
        before.len() <= after.len(),
        forall|i: int| 0 <= i < before.len() ==> same_request(#[trigger] before[i], after[i]),
    ensures
        operation_in_order(after, operation),
{
    assert forall|k: int| 0 <= k < operation.attempts.len() implies is_attempt(
        after,
        operation,
        k,
        #[trigger] operation.attempts[k],
    ) by {
        assert(is_attempt(before, operation, k, operation.attempts[k]));
        assert(same_request(before[operation.attempts[k] as int], after[operation.attempts[k] as int]));
    }
}

/// What the first `n` attempts of a compaction look like in the plan.
spec fn attempts_fit(
    nodes: Seq<NodeView>,
    list: Seq<usize>,
    operation: Seq<char>,
    effects: Seq<CompactionExpectedEffect>,
    n: nat,
) -> bool {
    &&& list.len() == n
    &&& forall|k: int| 0 <= k < n ==> attempt_fits(nodes, list, operation, effects, k, #[trigger] list[k])
}

spec fn attempt_fits(
    nodes: Seq<NodeView>,
    list: Seq<usize>,
    operation: Seq<char>,
    effects: Seq<CompactionExpectedEffect>,
    k: int,
    at: usize,
) -> bool {
    let node = nodes[at as int];
    let attempt = node.compaction_attempt->0;
    &&& at < nodes.len()
    &&& node.compaction_attempt is Some
    &&& attempt.operation_id == operation
    &&& attempt.phase == "pre_turn"@
    &&& attempt.attempt == k + 1
    &&& attempt.expected_effect == effects[k]
    &&& attempt.abort_after_ms is Some <==> effects[k] == CompactionExpectedEffect::NoMutationAborted
    &&& node.output_budget_tokens is None
    &&& k > 0 ==> node.dependencies == seq![list[k - 1]]
}

proof fn lemma_attempts_in_order(
    d: Draws,
    e: ResolvedGeneratorConfig,
    c: Course,
    operation: Seq<char>,
    arrival_ms: Option<u64>,
    summary_tokens: u64,
    effects: Seq<CompactionExpectedEffect>,
    n: nat,
    k: int,
)
    requires
        in_order(e, c.plan),
        window_fits(c.plan, c.window, k),
        n <= effects.len() <= 3,
        attempts(d, e, c, operation, arrival_ms, summary_tokens, effects, n) is Ok,
    ensures
        ({
            let (list, q) = attempts(d, e, c, operation, arrival_ms, summary_tokens, effects, n)->Ok_0;
            &&& in_order(e, q)
            &&& grows(c.plan, q)
            &&& attempts_fit(q.nodes, list, operation, effects, n)
        }),
    decreases n,
{
    if n > 0 {
        lemma_attempts_in_order(
            d,
            e,
            c,
            operation,
            arrival_ms,
            summary_tokens,
            effects,
            (n - 1) as nat,
            k,
        );
        let (before, p) = attempts(
            d,
            e,
            c,
            operation,
            arrival_ms,
            summary_tokens,
            effects,
            (n - 1) as nat,
        )->Ok_0;
        let (list, r) = attempts(d, e, c, operation, arrival_ms, summary_tokens, effects, n)->Ok_0;
        let effect = effects[n - 1];
        let (abort_after_ms, q) = if effect == CompactionExpectedEffect::NoMutationAborted {
            let (delay, q) = take(d, p, e.compaction_abort_after_ms);
            (Some(delay), q)
        } else {
            (None, p)
        };
        lemma_only_numbers(e, p, q.asked);
        assert(q == Plan { asked: q.asked, ..p });
        lemma_grows_transitive(c.plan, p, q);
        lemma_fits_grows(c.plan, q, c.window, arbitrary(), k);
        let draft = Draft {
            dependencies: if n == 1 {
                c.dependencies
            } else {
                seq![before.last()]
            },
            delay_ms: if n == 1 {
                c.delay_ms
            } else {
                0
            },
            arrival_ms: if n == 1 {
                arrival_ms
            } else {
                None
            },
            action: "compaction_attempt"@,
            trigger: "other"@,
            output_tokens: if effect == CompactionExpectedEffect::ApplyOnce {
                summary_tokens
            } else {
                0
            },
            budget_tokens: None,
            attempt: Some(
                AttemptView {
                    operation_id: operation,
                    phase: "pre_turn"@,
                    attempt: n as usize,
                    expected_effect: effect,
                    abort_after_ms,
                },
            ),
        };
        lemma_requested_in_order(e, q, c.window, draft, k);
        let node = requested(e, q, c.window, draft)->Ok_0.0;
        lemma_grows_transitive(c.plan, q, r);
        assert(list == before.push(node));
        assert forall|j: int| 0 <= j < n implies attempt_fits(r.nodes, list, operation, effects, j, #[trigger] list[j]) by {
            if j < n - 1 {
                assert(attempt_fits(p.nodes, before, operation, effects, j, before[j]));
                assert(r.nodes[before[j] as int] == p.nodes[before[j] as int]);
            } else {
                assert(r.nodes[node as int] == drafted_node(e, q, c.window, draft));
            }
        }
    }
}

proof fn lemma_operated_in_order(
    d: Draws,
    e: ResolvedGeneratorConfig,
    c: Course,
    turn: nat,
    arrival_ms: Option<u64>,
    summary_tokens: u64,
    k: int,
)
    requires
        in_order(e, c.plan),
        window_fits(c.plan, c.window, k),
        operated(d, e, c, turn, arrival_ms, summary_tokens) is Ok,
    ensures
        in_order(e, operated(d, e, c, turn, arrival_ms, summary_tokens)->Ok_0.1),
        grows(c.plan, operated(d, e, c, turn, arrival_ms, summary_tokens)->Ok_0.1),
{
    reveal(operated);
    let (list, s) = operated(d, e, c, turn, arrival_ms, summary_tokens)->Ok_0;
    let limit = crate::scenario::outline::attempt_limit(e, c.plan);
    let (aborts, p) = if limit >= 2 {
        take_chance(d, c.plan, e.compaction_abort_probability)
    } else {
        (false, c.plan)
    };
    let (duplicates, q) = if attempt_effects(aborts, false).len() < limit {
        take_chance(d, p, e.compaction_retry_probability)
    } else {
        (false, p)
    };
    assert(q == Plan { asked: q.asked, ..c.plan });
    lemma_only_numbers(e, c.plan, q.asked);
    let effects = attempt_effects(aborts, duplicates);
    let operation = crate::scenario::outline::operation_name(e, c.window, turn);
    let c2 = Course { plan: q, ..c };
    lemma_attempts_in_order(d, e, c2, operation, arrival_ms, summary_tokens, effects, effects.len(), k);
    let r = attempts(d, e, c2, operation, arrival_ms, summary_tokens, effects, effects.len())->Ok_0.1;
    lemma_grows_transitive(c.plan, q, r);
    let added = s.operations.last();
    assert(operation_in_order(s.nodes, added)) by {
        assert forall|j: int| 0 <= j < added.attempts.len() implies is_attempt(
            s.nodes,
            added,
            j,
            #[trigger] added.attempts[j],
        ) by {
            assert(attempt_fits(r.nodes, list, operation, effects, j, list[j]));
        }
    }
    assert forall|i: int| 0 <= i < s.operations.len() implies operation_in_order(
        s.nodes,
        #[trigger] s.operations[i],
    ) by {
        if i < r.operations.len() {
            assert(s.operations[i] == r.operations[i]);
        }
    }
    assert forall|i: int| 0 <= i < s.nodes.len() implies #[trigger] node_in_order(e, s, i) by {
        assert(node_in_order(e, r, i));
    }
    assert forall|i: int| 0 <= i < c.plan.operations.len() implies s.operations[i]
        == #[trigger] c.plan.operations[i] by {
        assert(r.operations[i] == c.plan.operations[i]);
    }
}

/// A compaction keeps the stable prefix and the most recent blocks, and moves the context on by
/// one epoch.
pub proof fn law_compaction_rewrites_the_window(
    e: ResolvedGeneratorConfig,
    p: Plan,
    w: Window,
    turn: nat,
    summary_tokens: u64,
)
    requires
        w.stable_blocks <= w.blocks.len(),
        w.epoch < usize::MAX,
        compacted(e, p, w, turn, summary_tokens) is Ok,
    ensures
        ({
            let after = compacted(e, p, w, turn, summary_tokens)->Ok_0.0;
            let kept = retained_blocks(e, w) as int;
            &&& after.stable_blocks == w.stable_blocks
            &&& after.stable_blocks + kept <= after.blocks.len()
            &&& after.blocks.take(w.stable_blocks as int) == w.blocks.take(w.stable_blocks as int)
            &&& after.blocks.skip(after.blocks.len() - kept) == w.blocks.skip(w.blocks.len() - kept)
            &&& after.epoch == w.epoch + 1
        }),
{
    let after = compacted(e, p, w, turn, summary_tokens)->Ok_0.0;
    let kept = retained_blocks(e, w) as int;
    assert(after.blocks.take(w.stable_blocks as int) =~= w.blocks.take(w.stable_blocks as int));
    assert(after.blocks.skip(after.blocks.len() - kept) =~= w.blocks.skip(w.blocks.len() - kept));
}

proof fn lemma_maybe_compacted_in_order(d: Draws, e: Env, c: Course, turn: nat, arrival_ms: Option<u64>, k: int)
    requires
        in_order(e.config, c.plan),
        window_fits(c.plan, c.window, k),
        maybe_compacted(d, e, c, turn, arrival_ms) is Ok,
    ensures
        ({
            let after = maybe_compacted(d, e, c, turn, arrival_ms)->Ok_0;
            &&& in_order(e.config, after.plan)
            &&& grows(c.plan, after.plan)
            &&& window_fits(after.plan, after.window, k)
        }),
{
    reveal(maybe_compacted);
    if !crate::scenario::outline::compaction_due(e, c.window) {
        return;
    }
    let after = maybe_compacted(d, e, c, turn, arrival_ms)->Ok_0;
    let (prompt_tokens, p) = take(d, c.plan, e.config.summary_input_tokens);
    assert(p == Plan { asked: p.asked, ..c.plan });
    lemma_only_numbers(e.config, c.plan, p.asked);
    let scope = crate::scenario::outline::part_scope(c.window.session_id, ":compaction-prompt:"@, turn);
    lemma_segment_in_order(e.config, p, scope, prompt_tokens);
    let (prompt, q) = segment(e.config, p, scope, prompt_tokens)->Ok_0;
    let (summary_tokens, r) = take(d, q, e.config.summary_output_tokens);
    assert(r == Plan { asked: r.asked, ..q });
    lemma_only_numbers(e.config, q, r.asked);
    lemma_grows_transitive(c.plan, p, q);
    lemma_grows_transitive(c.plan, q, r);
    lemma_fits_grows(c.plan, r, c.window, arbitrary(), k);
    let prompted = Window { blocks: c.window.blocks + prompt, ..c.window };
    assert(prompted.blocks.take(r.prefix.len() as int) =~= c.window.blocks.take(r.prefix.len() as int));
    let c2 = Course { plan: r, window: prompted, ..c };
    let first = crate::scenario::outline::first_arrival(c, arrival_ms);
    lemma_operated_in_order(d, e.config, c2, turn, first, summary_tokens, k);
    let s = operated(d, e.config, c2, turn, first, summary_tokens)->Ok_0.1;
    lemma_grows_transitive(c.plan, r, s);
    lemma_fits_grows(c.plan, s, c.window, arbitrary(), k);
    let summary_scope = crate::scenario::outline::part_scope(c.window.session_id, ":summary:"@, turn);
    lemma_segment_in_order(e.config, s, summary_scope, summary_tokens);
    lemma_grows_transitive(c.plan, s, after.plan);
    lemma_fits_grows(c.plan, after.plan, c.window, arbitrary(), k);
    let w = c.window;
    assert(after.window.blocks.take(after.plan.prefix.len() as int) =~= w.blocks.take(
        after.plan.prefix.len() as int,
    ));
}

proof fn lemma_answered_in_order(
    d: Draws,
    e: Env,
    c: Course,
    turn: nat,
    turns: nat,
    depth: nat,
    arrival_ms: Option<u64>,
    k: int,
)
    requires
        in_order(e.config, c.plan),
        window_fits(c.plan, c.window, k),
        answered(d, e, c, turn, turns, depth, arrival_ms) is Ok,
    ensures
        ({
            let (after, node, action) = answered(d, e, c, turn, turns, depth, arrival_ms)->Ok_0;
            &&& in_order(e.config, after.plan)
            &&& grows(c.plan, after.plan)
            &&& window_fits(after.plan, after.window, k)
            &&& node < after.plan.nodes.len()
            &&& after.plan.nodes[node as int].action == action.label()
        }),
{
    reveal(answered);
    let (after, node, action) = answered(d, e, c, turn, turns, depth, arrival_ms)->Ok_0;
    let (output_tokens, p) = take(d, c.plan, e.config.output_tokens);
    let q = if turn + 1 == turns {
        p
    } else {
        take_word(d, p).1
    };
    assert(q == Plan { asked: q.asked, ..c.plan });
    lemma_only_numbers(e.config, c.plan, q.asked);
    lemma_fits_grows(c.plan, q, c.window, arbitrary(), k);
    let draft = Draft {
        dependencies: c.dependencies,
        delay_ms: c.delay_ms,
        arrival_ms: crate::scenario::outline::first_arrival(c, arrival_ms),
        action: action.label(),
        trigger: c.trigger,
        output_tokens,
        budget_tokens: Some(output_tokens),
        attempt: None,
    };
    lemma_requested_in_order(e.config, q, c.window, draft, k);
    let r = requested(e.config, q, c.window, draft)->Ok_0.1;
    lemma_grows_transitive(c.plan, q, r);
    lemma_fits_grows(c.plan, r, c.window, arbitrary(), k);
    let scope = crate::scenario::outline::part_scope(c.window.session_id, ":assistant:"@, turn);
    lemma_appended_in_order(e.config, r, c.window, scope, output_tokens, k);
    lemma_grows_transitive(c.plan, r, after.plan);
    assert(same_request(r.nodes[node as int], after.plan.nodes[node as int]));
}

proof fn lemma_after_text_in_order(d: Draws, e: Env, c: Course, turn: nat, node: usize, k: int)
    requires
        in_order(e.config, c.plan),
        window_fits(c.plan, c.window, k),
        after_text(d, e, c, turn, node) is Ok,
    ensures
        ({
            let after = after_text(d, e, c, turn, node)->Ok_0;
            &&& in_order(e.config, after.plan)
            &&& grows(c.plan, after.plan)
            &&& window_fits(after.plan, after.window, k)
        }),
{
    reveal(after_text);
    let after = after_text(d, e, c, turn, node)->Ok_0;
    let (user_tokens, p) = take(d, c.plan, e.config.user_tokens);
    assert(p == Plan { asked: p.asked, ..c.plan });
    lemma_only_numbers(e.config, c.plan, p.asked);
    lemma_fits_grows(c.plan, p, c.window, arbitrary(), k);
    let scope = crate::scenario::outline::part_scope(c.window.session_id, ":user:"@, turn + 1);
    lemma_appended_in_order(e.config, p, c.window, scope, user_tokens, k);
    let (window, q) = appended(e.config, p, c.window, scope, user_tokens)->Ok_0;
    assert(after.plan == Plan { asked: after.plan.asked, ..q });
    lemma_only_numbers(e.config, q, after.plan.asked);
    lemma_grows_transitive(c.plan, p, q);
    lemma_grows_transitive(c.plan, q, after.plan);
    lemma_fits_grows(q, after.plan, window, arbitrary(), k);
}

proof fn lemma_tool_call_numbers(d: Draws, e: Env, p: Plan)
    ensures
        tool_call(d, e, p).1 == (Plan { asked: tool_call(d, e, p).1.asked, ..p }),
{
}

proof fn lemma_tool_calls_in_order(d: Draws, e: Env, c: Course, turn: nat, n: nat, k: int)
    requires
        in_order(e.config, c.plan),
        window_fits(c.plan, c.window, k),
        tool_calls(d, e, c, turn, n) is Ok,
    ensures
        ({
            let (events, longest, after) = tool_calls(d, e, c, turn, n)->Ok_0;
            &&& in_order(e.config, after.plan)
            &&& grows(c.plan, after.plan)
            &&& window_fits(after.plan, after.window, k)
            &&& events.len() == n
            &&& after.plan.nodes == c.plan.nodes
            &&& forall|i: int| 0 <= i < n ==> (#[trigger] events[i]).latency_ms <= longest
            &&& n > 0 ==> exists|i: int| 0 <= i < n && (#[trigger] events[i]).latency_ms == longest
        }),
    decreases n,
{
    if n > 0 {
        lemma_tool_calls_in_order(d, e, c, turn, (n - 1) as nat, k);
        let (before, held, now) = tool_calls(d, e, c, turn, (n - 1) as nat)->Ok_0;
        let (events, longest, after) = tool_calls(d, e, c, turn, n)->Ok_0;
        let (event, p) = tool_call(d, e, now.plan);
        lemma_tool_call_numbers(d, e, now.plan);
        lemma_only_numbers(e.config, now.plan, p.asked);
        lemma_fits_grows(now.plan, p, now.window, arbitrary(), k);
        let scope = crate::scenario::outline::tool_scope(
            now.window.session_id,
            turn,
            (n - 1) as nat,
            event.class,
            event.failed,
        );
        lemma_appended_in_order(e.config, p, now.window, scope, event.result_tokens, k);
        lemma_segment_keeps_nodes(e.config, p, scope, event.result_tokens);
        lemma_grows_transitive(c.plan, now.plan, p);
        lemma_grows_transitive(c.plan, p, after.plan);
        assert forall|i: int| 0 <= i < n implies (#[trigger] events[i]).latency_ms <= longest by {
            if i < n - 1 {
                assert(events[i] == before[i]);
            }
        }
        assert(events[n - 1] == event);
        if longest != event.latency_ms {
            let i = choose|i: int| 0 <= i < n - 1 && (#[trigger] before[i]).latency_ms == held;
            assert(events[i] == before[i]);
        }
    }
}

proof fn lemma_segment_keeps_nodes(e: ResolvedGeneratorConfig, p: Plan, scope: Seq<char>, tokens: u64)
    requires
        segment(e, p, scope, tokens) is Ok,
    ensures
        segment(e, p, scope, tokens)->Ok_0.1.nodes == p.nodes,
{
    lemma_blocks_keep_nodes(e, p, scope, crate::numeric::ceil_div(tokens as nat, e.block_size as nat));
}

proof fn lemma_blocks_keep_nodes(e: ResolvedGeneratorConfig, p: Plan, scope: Seq<char>, n: nat)
    requires
        labelled_blocks(e, p, scope, n) is Ok,
    ensures
        labelled_blocks(e, p, scope, n)->Ok_0.1.nodes == p.nodes,
    decreases n,
{
    if n > 0 {
        lemma_blocks_keep_nodes(e, p, scope, (n - 1) as nat);
    }
}

/// Writing down what a node led to keeps the plan in order.
proof fn lemma_annotated_in_order(e: ResolvedGeneratorConfig, p: Plan, at: int, node: NodeView)
    requires
        in_order(e, p),
        0 <= at < p.nodes.len(),
        same_request(p.nodes[at], node),
    ensures
        in_order(e, (Plan { nodes: p.nodes.update(at, node), ..p })),
        grows(p, (Plan { nodes: p.nodes.update(at, node), ..p })),
{
    let q = Plan { nodes: p.nodes.update(at, node), ..p };
    assert forall|i: int| 0 <= i < p.nodes.len() implies same_request(#[trigger] p.nodes[i], q.nodes[i]) by {
        if i != at {
            assert(q.nodes[i] == p.nodes[i]);
        }
    }
    lemma_input_totals(p.nodes, q.nodes, p.nodes.len());
    assert forall|i: int| 0 <= i < q.nodes.len() implies #[trigger] node_in_order(e, q, i) by {
        assert(node_in_order(e, p, i));
        assert(same_request(p.nodes[i], q.nodes[i]));
    }
    assert forall|i: int| 0 <= i < q.operations.len() implies operation_in_order(
        q.nodes,
        #[trigger] q.operations[i],
    ) by {
        lemma_operation_stays(p.nodes, q.nodes, p.operations[i]);
    }
}

/// A tool phase records its calls, one or more of them, at least two where it is parallel, and
/// the next request follows after the longest of them.
pub proof fn law_tool_phase_waits_for_the_longest(
    d: Draws,
    e: Env,
    c: Course,
    turn: nat,
    node: usize,
    parallel: bool,
    k: int,
)
    requires
        e.config.parallel_count.range().0 > 0,
        in_order(e.config, c.plan),
        0 <= k < c.plan.sessions.len(),
        c.plan.sessions[k].session_id == c.window.session_id,
        c.plan.sessions[k].parent_session_id == c.window.parent_session_id,
        c.plan.prefix.len() <= c.window.stable_blocks <= c.window.blocks.len(),
        c.window.blocks.take(c.plan.prefix.len() as int) == c.plan.prefix,
        node < c.plan.nodes.len(),
        after_tools(d, e, c, turn, node, parallel) is Ok,
    ensures
        ({
            let after = after_tools(d, e, c, turn, node, parallel)->Ok_0;
            let events = after.plan.nodes[node as int].tool_events;
            &&& events.len() >= if parallel {
                2nat
            } else {
                1nat
            }
            &&& forall|i: int| 0 <= i < events.len() ==> (#[trigger] events[i]).latency_ms <= after.delay_ms
            &&& exists|i: int| 0 <= i < events.len() && (#[trigger] events[i]).latency_ms == after.delay_ms
            &&& after.dependencies == seq![node]
        }),
{
    reveal(after_tools);
    let (sampled_count, p) = if parallel {
        take(d, c.plan, e.config.parallel_count)
    } else {
        (1, c.plan)
    };
    assert(p == Plan { asked: p.asked, ..c.plan });
    lemma_only_numbers(e.config, c.plan, p.asked);
    lemma_fits_grows(c.plan, p, c.window, arbitrary(), k);
    let count = if parallel && sampled_count < 2 {
        2
    } else {
        sampled_count as nat
    };
    lemma_tool_calls_in_order(d, e, (Course { plan: p, ..c }), turn, count, k);
    let (events, longest, now) = tool_calls(d, e, (Course { plan: p, ..c }), turn, count)->Ok_0;
    let i = choose|i: int| 0 <= i < count && (#[trigger] events[i]).latency_ms == longest;
    assert(after_tools(d, e, c, turn, node, parallel)->Ok_0.plan.nodes[node as int].tool_events[i].latency_ms
        == longest);
}

proof fn lemma_after_tools_in_order(d: Draws, e: Env, c: Course, turn: nat, node: usize, parallel: bool, k: int)
    requires
        in_order(e.config, c.plan),
        window_fits(c.plan, c.window, k),
        node < c.plan.nodes.len(),
        after_tools(d, e, c, turn, node, parallel) is Ok,
    ensures
        ({
            let after = after_tools(d, e, c, turn, node, parallel)->Ok_0;
            &&& in_order(e.config, after.plan)
            &&& grows(c.plan, after.plan)
            &&& window_fits(after.plan, after.window, k)
        }),
{
    reveal(after_tools);
    let after = after_tools(d, e, c, turn, node, parallel)->Ok_0;
    let (sampled_count, p) = if parallel {
        take(d, c.plan, e.config.parallel_count)
    } else {
        (1, c.plan)
    };
    assert(p == Plan { asked: p.asked, ..c.plan });
    lemma_only_numbers(e.config, c.plan, p.asked);
    lemma_fits_grows(c.plan, p, c.window, arbitrary(), k);
    let count = if parallel && sampled_count < 2 {
        2
    } else {
        sampled_count as nat
    };
    let c2 = Course { plan: p, ..c };
    lemma_tool_calls_in_order(d, e, c2, turn, count, k);
    let (events, longest, now) = tool_calls(d, e, c2, turn, count)->Ok_0;
    let changed = NodeView { tool_events: events, ..now.plan.nodes[node as int] };
    lemma_annotated_in_order(e.config, now.plan, node as int, changed);
    lemma_grows_transitive(c.plan, p, now.plan);
    lemma_grows_transitive(c.plan, now.plan, after.plan);
    lemma_fits_grows(now.plan, after.plan, now.window, arbitrary(), k);
}

proof fn lemma_opened_in_order(
    d: Draws,
    e: Env,
    p: Plan,
    place: Place,
    parent: Option<Seq<char>>,
    dependencies: Seq<usize>,
    delay_ms: u64,
)
    requires
        in_order(e.config, p),
        p.sessions.len() < e.config.max_sessions,
        place.depth <= e.config.max_depth,
        place.depth == 0 <==> parent is None,
        parent is Some ==> exists|s: int|
            0 <= s < p.sessions.len() && (#[trigger] p.sessions[s]).session_id == parent->0 && p.sessions[s].depth + 1
                == place.depth && p.sessions[s].top_level_session_index == place.top_level_session_index
                && p.sessions[s].top_level_stream_slot == place.top_level_stream_slot,
        opened(d, e, p, place, parent, dependencies, delay_ms) is Ok,
    ensures
        ({
            let after = opened(d, e, p, place, parent, dependencies, delay_ms)->Ok_0;
            let k = p.sessions.len() as int;
            &&& in_order(e.config, after.plan)
            &&& grows(p, after.plan)
            &&& window_fits(after.plan, after.window, k)
            &&& place_fits(after.plan, place, k)
        }),
{
    reveal(opened);
    let after = opened(d, e, p, place, parent, dependencies, delay_ms)->Ok_0;
    let k = p.sessions.len() as int;
    let name = session_name(e.config, p.sessions.len());
    let view = SessionView {
        session_id: name,
        parent_session_id: parent,
        depth: place.depth,
        top_level_session_index: place.top_level_session_index,
        top_level_stream_slot: place.top_level_stream_slot,
    };
    let entered = Plan { sessions: p.sessions.push(view), ..p };
    assert(session_in_order(e.config, entered.sessions, k)) by {
        if parent is Some {
            let s = choose|s: int|
                0 <= s < p.sessions.len() && (#[trigger] p.sessions[s]).session_id == parent->0 && p.sessions[s].depth
                    + 1 == place.depth && p.sessions[s].top_level_session_index == place.top_level_session_index
                    && p.sessions[s].top_level_stream_slot == place.top_level_stream_slot;
            assert(entered.sessions[s] == p.sessions[s]);
        }
    }
    assert forall|i: int| 0 <= i < entered.sessions.len() implies #[trigger] session_in_order(
        e.config,
        entered.sessions,
        i,
    ) by {
        if i < k {
            assert(session_in_order(e.config, p.sessions, i));
            assert(entered.sessions[i] == p.sessions[i]);
            if p.sessions[i].parent_session_id is Some {
                let s = choose|s: int|
                    0 <= s < i && (#[trigger] p.sessions[s]).session_id == p.sessions[i].parent_session_id->0
                        && p.sessions[s].depth + 1 == p.sessions[i].depth && p.sessions[s].top_level_session_index
                        == p.sessions[i].top_level_session_index && p.sessions[s].top_level_stream_slot
                        == p.sessions[i].top_level_stream_slot;
                assert(entered.sessions[s] == p.sessions[s]);
            }
        }
    }
    assert forall|i: int| 0 <= i < entered.nodes.len() implies #[trigger] node_in_order(e.config, entered, i) by {
        assert(node_in_order(e.config, p, i));
        let context = p.nodes[i].request.agent_context->0;
        let s = choose|s: int|
            0 <= s < p.sessions.len() && (#[trigger] p.sessions[s]).session_id == context.session_id
                && p.sessions[s].parent_session_id == context.parent_session_id;
        assert(entered.sessions[s] == p.sessions[s]);
    }
    assert(in_order(e.config, entered));
    let (repository_tokens, p1) = take(d, entered, e.config.repository_tokens);
    let (session_tokens, p2) = take(d, p1, e.config.session_tokens);
    assert(p2 == Plan { asked: p2.asked, ..entered });
    lemma_only_numbers(e.config, entered, p2.asked);
    assert(grows(p, entered));
    lemma_grows_transitive(p, entered, p2);
    let bare = Window {
        session_id: name,
        parent_session_id: parent,
        blocks: p.prefix,
        stable_blocks: 0,
        epoch: 0,
    };
    let repository = "root:"@ + decimal(place.top_level_session_index as nat) + ":repository"@;
    lemma_segment_in_order(e.config, p2, repository, repository_tokens);
    let (w3, p3) = appended(e.config, p2, bare, repository, repository_tokens)->Ok_0;
    lemma_grows_transitive(p, p2, p3);
    lemma_grows_transitive(entered, p2, p3);
    let scope = "session:"@ + name + ":environment"@;
    lemma_segment_in_order(e.config, p3, scope, session_tokens);
    let (w4, p4) = appended(e.config, p3, w3, scope, session_tokens)->Ok_0;
    lemma_grows_transitive(p, p3, p4);
    lemma_grows_transitive(entered, p3, p4);
    let stable = Window { stable_blocks: w4.blocks.len(), ..w4 };
    let (user_tokens, p5) = take(d, p4, e.config.user_tokens);
    assert(p5 == Plan { asked: p5.asked, ..p4 });
    lemma_only_numbers(e.config, p4, p5.asked);
    lemma_grows_transitive(p, p4, p5);
    lemma_grows_transitive(entered, p4, p5);
    assert(p5.sessions[k] == entered.sessions[k]);
    assert(stable.blocks.take(p5.prefix.len() as int) =~= p5.prefix);
    assert(window_fits(p5, stable, k));
    let user = crate::scenario::outline::part_scope(name, ":user:"@, 0);
    lemma_appended_in_order(e.config, p5, stable, user, user_tokens, k);
    lemma_grows_transitive(p, p5, after.plan);
    assert(after.plan.sessions[k] == p5.sessions[k]);
}

spec fn lineage(p: Plan, place: Place, parent: Option<Seq<char>>) -> bool {
    &&& place.depth == 0 <==> parent is None
    &&& parent is Some ==> exists|s: int|
        0 <= s < p.sessions.len() && (#[trigger] p.sessions[s]).session_id == parent->0 && p.sessions[s].depth + 1
            == place.depth && p.sessions[s].top_level_session_index == place.top_level_session_index
            && p.sessions[s].top_level_stream_slot == place.top_level_stream_slot
}

proof fn lemma_children_in_order(
    d: Draws,
    e: Env,
    p: Plan,
    place: Place,
    session_id: Seq<char>,
    node: usize,
    n: nat,
    k: int,
)
    requires
        in_order(e.config, p),
        place_fits(p, place, k),
        p.sessions[k].session_id == session_id,
        children(d, e, p, place, session_id, node, n) is Ok,
    ensures
        in_order(e.config, children(d, e, p, place, session_id, node, n)->Ok_0.2),
        grows(p, children(d, e, p, place, session_id, node, n)->Ok_0.2),
    decreases room(e, place.depth), 0nat, n,
{
    lemma_children_unfold(d, e, p, place, session_id, node, n);
    if n > 0 && place.depth < e.config.max_depth {
        lemma_children_in_order(d, e, p, place, session_id, node, (n - 1) as nat, k);
        let q = children(d, e, p, place, session_id, node, (n - 1) as nat)->Ok_0.2;
        let (delay_ms, r) = take(d, q, e.config.spawn_delay_ms);
        assert(r == Plan { asked: r.asked, ..q });
        lemma_only_numbers(e.config, q, r.asked);
        lemma_grows_transitive(p, q, r);
        let child = Place { depth: (place.depth + 1) as usize, arrival_ms: None, ..place };
        assert(r.sessions[k] == p.sessions[k]);
        assert(lineage(r, child, Some(session_id)));
        lemma_session_in_order(d, e, r, child, Some(session_id), seq![node], delay_ms);
        let s = session(d, e, r, child, Some(session_id), seq![node], delay_ms)->Ok_0.1;
        lemma_grows_transitive(p, r, s);
    }
}

proof fn lemma_after_delegation_in_order(
    d: Draws,
    e: Env,
    c: Course,
    place: Place,
    turn: nat,
    node: usize,
    swarm: bool,
    k: int,
)
    requires
        in_order(e.config, c.plan),
        window_fits(c.plan, c.window, k),
        place_fits(c.plan, place, k),
        node < c.plan.nodes.len(),
        after_delegation(d, e, c, place, turn, node, swarm) is Ok,
    ensures
        ({
            let after = after_delegation(d, e, c, place, turn, node, swarm)->Ok_0;
            &&& in_order(e.config, after.plan)
            &&& grows(c.plan, after.plan)
            &&& window_fits(after.plan, after.window, k)
        }),
    decreases room(e, place.depth), 1nat, 0nat,
{
    lemma_after_delegation_unfold(d, e, c, place, turn, node, swarm);
    let after = after_delegation(d, e, c, place, turn, node, swarm)->Ok_0;
    let (sampled_count, p) = if swarm {
        take(d, c.plan, e.config.fanout)
    } else {
        (1, c.plan)
    };
    let wanted = if swarm && sampled_count < 2 {
        2
    } else {
        sampled_count as nat
    };
    let (blocking, q) = take_chance(d, p, e.config.blocking_probability);
    assert(q == Plan { asked: q.asked, ..c.plan });
    lemma_only_numbers(e.config, c.plan, q.asked);
    lemma_fits_grows(c.plan, q, c.window, place, k);
    let count = crate::scenario::outline::child_count(e, p, wanted);
    lemma_children_in_order(d, e, q, place, c.window.session_id, node, count, k);
    let (finals, ids, r) = children(d, e, q, place, c.window.session_id, node, count)->Ok_0;
    lemma_grows_transitive(c.plan, q, r);
    let changed = NodeView { spawned_session_ids: ids, ..r.nodes[node as int] };
    let spawned = Plan { nodes: r.nodes.update(node as int, changed), ..r };
    lemma_annotated_in_order(e.config, r, node as int, changed);
    lemma_grows_transitive(c.plan, r, spawned);
    let (join_tokens, s) = take(d, spawned, e.config.tool_result_tokens);
    assert(s == Plan { asked: s.asked, ..spawned });
    lemma_only_numbers(e.config, spawned, s.asked);
    lemma_grows_transitive(c.plan, spawned, s);
    lemma_fits_grows(c.plan, s, c.window, place, k);
    let scope = crate::scenario::outline::part_scope(c.window.session_id, ":join:"@, turn);
    lemma_appended_in_order(e.config, s, c.window, scope, join_tokens, k);
    let (window, t) = appended(e.config, s, c.window, scope, join_tokens)->Ok_0;
    lemma_grows_transitive(c.plan, s, t);
    assert(after.plan == Plan { asked: after.plan.asked, ..t });
    lemma_only_numbers(e.config, t, after.plan.asked);
    lemma_grows_transitive(c.plan, t, after.plan);
    lemma_fits_grows(t, after.plan, window, place, k);
}

proof fn lemma_one_turn_in_order(d: Draws, e: Env, c: Course, place: Place, turn: nat, turns: nat, k: int)
    requires
        in_order(e.config, c.plan),
        window_fits(c.plan, c.window, k),
        place_fits(c.plan, place, k),
        one_turn(d, e, c, place, turn, turns) is Ok,
    ensures
        ({
            let after = one_turn(d, e, c, place, turn, turns)->Ok_0.0;
            &&& in_order(e.config, after.plan)
            &&& grows(c.plan, after.plan)
            &&& window_fits(after.plan, after.window, k)
        }),
    decreases room(e, place.depth), 2nat, 0nat,
{
    lemma_one_turn_unfold(d, e, c, place, turn, turns);
    let after = one_turn(d, e, c, place, turn, turns)->Ok_0.0;
    lemma_maybe_compacted_in_order(d, e, c, turn, place.arrival_ms, k);
    let ready = maybe_compacted(d, e, c, turn, place.arrival_ms)->Ok_0;
    lemma_fits_grows(c.plan, ready.plan, ready.window, place, k);
    lemma_answered_in_order(d, e, ready, turn, turns, place.depth as nat, place.arrival_ms, k);
    let (now, node, action) = answered(d, e, ready, turn, turns, place.depth as nat, place.arrival_ms)->Ok_0;
    lemma_fits_grows(ready.plan, now.plan, now.window, place, k);
    lemma_grows_transitive(c.plan, ready.plan, now.plan);
    match action {
        NextAction::Complete => {},
        NextAction::Text => {
            lemma_after_text_in_order(d, e, now, turn, node, k);
            lemma_grows_transitive(c.plan, now.plan, after.plan);
        },
        NextAction::Tool => {
            lemma_after_tools_in_order(d, e, now, turn, node, false, k);
            lemma_grows_transitive(c.plan, now.plan, after.plan);
        },
        NextAction::ParallelTools => {
            lemma_after_tools_in_order(d, e, now, turn, node, true, k);
            lemma_grows_transitive(c.plan, now.plan, after.plan);
        },
        NextAction::Subagent => {
            lemma_after_delegation_in_order(d, e, now, place, turn, node, false, k);
            lemma_grows_transitive(c.plan, now.plan, after.plan);
        },
        NextAction::Swarm => {
            lemma_after_delegation_in_order(d, e, now, place, turn, node, true, k);
            lemma_grows_transitive(c.plan, now.plan, after.plan);
        },
    }
}

proof fn lemma_turns_in_order(d: Draws, e: Env, c: Course, place: Place, turn: nat, turns: nat, k: int)
    requires
        in_order(e.config, c.plan),
        window_fits(c.plan, c.window, k),
        place_fits(c.plan, place, k),
        turns_from(d, e, c, place, turn, turns) is Ok,
    ensures
        ({
            let after = turns_from(d, e, c, place, turn, turns)->Ok_0;
            &&& in_order(e.config, after.plan)
            &&& grows(c.plan, after.plan)
        }),
    decreases room(e, place.depth), 3nat, turns - turn,
{
    lemma_turns_from_unfold(d, e, c, place, turn, turns);
    if turn < turns && c.plan.nodes.len() < e.config.max_nodes {
        lemma_one_turn_in_order(d, e, c, place, turn, turns, k);
        let (next, complete) = one_turn(d, e, c, place, turn, turns)->Ok_0;
        if !complete {
            lemma_fits_grows(c.plan, next.plan, next.window, place, k);
            lemma_turns_in_order(d, e, next, place, turn + 1, turns, k);
            let after = turns_from(d, e, next, place, turn + 1, turns)->Ok_0;
            lemma_grows_transitive(c.plan, next.plan, after.plan);
        }
    }
}

proof fn lemma_session_in_order(
    d: Draws,
    e: Env,
    p: Plan,
    place: Place,
    parent: Option<Seq<char>>,
    dependencies: Seq<usize>,
    delay_ms: u64,
)
    requires
        in_order(e.config, p),
        place.depth <= e.config.max_depth,
        lineage(p, place, parent),
        session(d, e, p, place, parent, dependencies, delay_ms) is Ok,
    ensures
        in_order(e.config, session(d, e, p, place, parent, dependencies, delay_ms)->Ok_0.1),
        grows(p, session(d, e, p, place, parent, dependencies, delay_ms)->Ok_0.1),
    decreases room(e, place.depth), 4nat, 0nat,
{
    lemma_session_unfold(d, e, p, place, parent, dependencies, delay_ms);
    if p.sessions.len() < e.config.max_sessions && p.nodes.len() < e.config.max_nodes {
        lemma_opened_in_order(d, e, p, place, parent, dependencies, delay_ms);
        let c = opened(d, e, p, place, parent, dependencies, delay_ms)->Ok_0;
        let (turns, q) = take(
            d,
            c.plan,
            if place.depth == 0 {
                e.config.turns
            } else {
                e.config.subagent_turns
            },
        );
        assert(q == Plan { asked: q.asked, ..c.plan });
        lemma_only_numbers(e.config, c.plan, q.asked);
        let k = p.sessions.len() as int;
        lemma_fits_grows(c.plan, q, c.window, place, k);
        let c2 = Course { plan: q, ..c };
        lemma_turns_in_order(d, e, c2, place, 0, turns as nat, k);
        let done = turns_from(d, e, c2, place, 0, turns as nat)->Ok_0;
        lemma_grows_transitive(p, c.plan, q);
        lemma_grows_transitive(p, q, done.plan);
    }
}

proof fn lemma_top_level_in_order(d: Draws, e: Env, p: Plan, n: nat)
    requires
        in_order(e.config, p),
        top_level(d, e, p, n) is Ok,
    ensures
        in_order(e.config, top_level(d, e, p, n)->Ok_0.1),
        grows(p, top_level(d, e, p, n)->Ok_0.1),
    decreases n,
{
    reveal(top_level);
    if n > 0 {
        lemma_top_level_in_order(d, e, p, (n - 1) as nat);
        let (streams, q) = top_level(d, e, p, (n - 1) as nat)->Ok_0;
        let slot = (n - 1) % (e.config.concurrent_sessions as int);
        let arrival = slot * e.config.startup_interval_ms;
        let (delay_ms, r) = if streams[slot] is Some {
            take(d, q, e.config.restart_delay_ms)
        } else {
            (0, q)
        };
        assert(r == Plan { asked: r.asked, ..q });
        lemma_only_numbers(e.config, q, r.asked);
        let dependencies = match streams[slot] {
            Some(last) => seq![last],
            None => Seq::empty(),
        };
        let place = Place {
            depth: 0,
            arrival_ms: match streams[slot] {
                Some(_) => None,
                None => Some(arrival as u64),
            },
            top_level_session_index: (n - 1) as usize,
            top_level_stream_slot: slot as usize,
        };
        lemma_session_in_order(d, e, r, place, None, dependencies, delay_ms);
        let s = session(d, e, r, place, None, dependencies, delay_ms)->Ok_0.1;
        lemma_grows_transitive(p, q, r);
        lemma_grows_transitive(p, r, s);
    }
}

/// Every plan is in order: dependencies point backward, requests without any arrive by
/// themselves, inputs start with the shared blocks, sessions form trees, compactions apply once,
/// labels differ, and the limits hold.
pub proof fn law_plans_are_in_order(d: Draws, e: Env)
    requires
        planned(d, e) is Ok,
    ensures
        in_order(e.config, planned(d, e)->Ok_0),
{
    let config = e.config;
    let (system_tokens, p) = take(d, blank_plan(), config.system_prefix_tokens);
    let (tool_tokens, q) = take(d, p, config.tool_catalog_tokens);
    assert(in_order(config, blank_plan()));
    assert(q == Plan { asked: q.asked, ..blank_plan() });
    lemma_only_numbers(config, blank_plan(), q.asked);
    lemma_segment_in_order(config, q, "shared:system"@, system_tokens);
    let r = segment(config, q, "shared:system"@, system_tokens)->Ok_0.1;
    lemma_segment_in_order(config, r, "shared:tools"@, tool_tokens);
    lemma_segment_keeps_nodes(config, q, "shared:system"@, system_tokens);
    lemma_segment_keeps_nodes(config, r, "shared:tools"@, tool_tokens);
    let begun = started(d, config)->Ok_0;
    assert(begun.nodes.len() == 0);
    assert(in_order(config, begun));
    lemma_top_level_in_order(d, e, begun, config.num_sessions as nat);
}

proof fn lemma_session_names_differ(e: ResolvedGeneratorConfig, a: nat, b: nat)
    requires
        session_name(e, a) == session_name(e, b),
    ensures
        a == b,
{
    let start = "generated-"@ + hexadecimal(e.seed as nat, 16) + "-session-"@;
    let x = session_name(e, a);
    let y = session_name(e, b);
    assert(x.skip(start.len() as int) =~= decimal(a));
    assert(y.skip(start.len() as int) =~= decimal(b));
    law_decimals_differ(a, b);
}

proof fn lemma_session_is_named(scenario: GeneratedScenario, name: Seq<char>, s: int, n: nat)
    requires
        0 <= s < n <= scenario.sessions@.len(),
        scenario.sessions@[s].session_id@ == name,
    ensures
        session_named(scenario.sessions@, name, n) is Some,
    decreases n,
{
    if s < n - 1 {
        lemma_session_is_named(scenario, name, s, (n - 1) as nat);
    }
}

proof fn lemma_node_is_at_home(scenario: GeneratedScenario, config: ResolvedGeneratorConfig, p: Plan, i: int)
    requires
        in_order(config, p),
        scenario.holds(p),
        0 <= i < scenario.nodes@.len(),
    ensures
        scenario.nodes@[i].request.agent_context is Some,
        session_named(
            scenario.sessions@,
            scenario.nodes@[i].request.agent_context->0.session_id@,
            scenario.sessions@.len(),
        ) is Some,
        forall|k: int|
            0 <= k < scenario.nodes@[i].dependencies@.len() ==> (#[trigger] scenario.nodes@[i].dependencies@[k]) < i,
{
    let node = scenario.nodes@[i];
    assert(node_views(scenario.nodes@)[i] == node@);
    assert(node_in_order(config, p, i));
    let name = p.nodes[i].request.agent_context->0.session_id;
    let s = choose|s: int|
        0 <= s < p.sessions.len() && (#[trigger] p.sessions[s]).session_id == name && p.sessions[s].parent_session_id
            == p.nodes[i].request.agent_context->0.parent_session_id;
    assert(session_views(scenario.sessions@)[s] == scenario.sessions@[s]@);
    lemma_session_is_named(scenario, name, s, scenario.sessions@.len());
}

proof fn lemma_nodes_are_drawn(scenario: GeneratedScenario, config: ResolvedGeneratorConfig, p: Plan, n: nat)
    requires
        in_order(config, p),
        scenario.holds(p),
        n <= scenario.nodes@.len(),
    ensures
        node_failure(scenario.sessions@, scenario.nodes@, n) is None,
        edge_failure(scenario.sessions@, scenario.nodes@, n) is None,
    decreases n,
{
    if n > 0 {
        lemma_nodes_are_drawn(scenario, config, p, (n - 1) as nat);
        lemma_node_is_at_home(scenario, config, p, n - 1);
        lemma_edges_are_drawn(scenario, config, p, n - 1, scenario.nodes@[n - 1].dependencies@.len());
    }
}

proof fn lemma_edges_are_drawn(scenario: GeneratedScenario, config: ResolvedGeneratorConfig, p: Plan, i: int, k: nat)
    requires
        in_order(config, p),
        scenario.holds(p),
        0 <= i < scenario.nodes@.len(),
        k <= scenario.nodes@[i].dependencies@.len(),
    ensures
        dependency_failure(scenario.sessions@, scenario.nodes@, i, k) is None,
    decreases k,
{
    if k > 0 {
        lemma_edges_are_drawn(scenario, config, p, i, (k - 1) as nat);
        lemma_node_is_at_home(scenario, config, p, i);
        let dependency = scenario.nodes@[i].dependencies@[k - 1];
        assert(dependency < i);
        lemma_node_is_at_home(scenario, config, p, dependency as int);
    }
}

/// Every plan can be drawn: its sessions have different names, so none of them stands below itself,
/// and each node and each edge finds its session.
pub proof fn law_plans_can_be_drawn(scenario: GeneratedScenario, d: Draws, e: Env)
    requires
        planned(d, e) is Ok,
        scenario.holds(planned(d, e)->Ok_0),
    ensures
        distinct_sessions(scenario.sessions@),
        all_nest(scenario.sessions@),
        graph_failure(scenario) is None,
{
    let p = planned(d, e)->Ok_0;
    law_plans_are_in_order(d, e);
    assert forall|i: int, j: int| 0 <= i < j < scenario.sessions@.len() implies (
    #[trigger] scenario.sessions@[i]).session_id@ != (#[trigger] scenario.sessions@[j]).session_id@ by {
        assert(session_views(scenario.sessions@)[i] == scenario.sessions@[i]@);
        assert(session_views(scenario.sessions@)[j] == scenario.sessions@[j]@);
        assert(session_in_order(e.config, p.sessions, i));
        assert(session_in_order(e.config, p.sessions, j));
        if scenario.sessions@[i].session_id@ == scenario.sessions@[j].session_id@ {
            lemma_session_names_differ(e.config, i as nat, j as nat);
        }
    }
    law_distinct_sessions_nest(scenario.sessions@);
    lemma_nodes_are_drawn(scenario, e.config, p, scenario.nodes@.len());
}

/// The last turn of a session is always its completion, so that every session ends.
pub proof fn law_last_turns_complete(d: Draws, e: Env, c: Course, place: Place, turn: nat, turns: nat)
    requires
        turn + 1 == turns,
        one_turn(d, e, c, place, turn, turns) is Ok,
    ensures
        one_turn(d, e, c, place, turn, turns)->Ok_0.1,
{
    reveal(one_turn);
    reveal(answered);
}

/// Two segments with one scope agree on the blocks that both have, whatever was planned between
/// them: sessions of one tree share their repository blocks.
pub proof fn law_segments_share_labels(
    e: ResolvedGeneratorConfig,
    p: Plan,
    q: Plan,
    scope: Seq<char>,
    n: nat,
    m: nat,
    k: int,
)
    requires
        in_order(e, p),
        in_order(e, q),
        labelled_blocks(e, p, scope, n) is Ok,
        grows(labelled_blocks(e, p, scope, n)->Ok_0.1, q),
        labelled_blocks(e, q, scope, m) is Ok,
        0 <= k < n,
        k < m,
    ensures
        labelled_blocks(e, p, scope, n)->Ok_0.0[k] == labelled_blocks(e, q, scope, m)->Ok_0.0[k],
{
    lemma_blocks_in_order(e, p, scope, n);
    lemma_blocks_in_order(e, q, scope, m);
    let first = labelled_blocks(e, p, scope, n)->Ok_0;
    let second = labelled_blocks(e, q, scope, m)->Ok_0;
    let owner = block_owner(scope, k as nat);
    assert(carries_label(first.1, scope, first.0, k));
    assert(carries_label(second.1, scope, second.0, k));
    assert(q.labels.contains_key(owner));
}

/// A configuration, its tables and the sampled numbers fix the scenario: sessions, requests,
/// compactions, totals and the profile's digest.
pub proof fn law_numbers_fix_the_scenario(
    a: GeneratedScenario,
    b: GeneratedScenario,
    d: Draws,
    e: Env,
    profile: Seq<u8>,
)
    requires
        planned(d, e) is Ok,
        is_scenario(a, planned(d, e)->Ok_0, e, profile),
        is_scenario(b, planned(d, e)->Ok_0, e, profile),
    ensures
        session_views(a.sessions@) == session_views(b.sessions@),
        node_views(a.nodes@) == node_views(b.nodes@),
        operation_views(a.compaction_operations@) == operation_views(b.compaction_operations@),
        a.tool_parallelism == b.tool_parallelism,
        a.profile_digest_sha256@ == b.profile_digest_sha256@,
{
}

/// Two scenarios with the same sessions, nodes, compactions, totals and digests.
pub open spec fn same_scenario(a: GeneratedScenario, b: GeneratedScenario) -> bool {
    &&& a.schema_version == b.schema_version
    &&& a.config == b.config
    &&& session_views(a.sessions@) == session_views(b.sessions@)
    &&& node_views(a.nodes@) == node_views(b.nodes@)
    &&& operation_views(a.compaction_operations@) == operation_views(b.compaction_operations@)
    &&& a.tool_parallelism == b.tool_parallelism
    &&& a.session_topology == b.session_topology
    &&& a.profile_digest_sha256@ == b.profile_digest_sha256@
    &&& a.scenario_digest_sha256@ == b.scenario_digest_sha256@
    &&& a.trace_manifest.source_digest_sha256@ == b.trace_manifest.source_digest_sha256@
    &&& a.trace_manifest == (TraceManifest {
        source_digest_sha256: a.trace_manifest.source_digest_sha256,
        ..b.trace_manifest
    })
}

/// The seed fixes the scenario: two generations with the same configuration, tables and profile,
/// and the same way of making log-normal numbers, agree. Both fail with the same error, or both
/// give the same sessions, nodes, compactions, totals and digests; so they do once they are
/// sealed over the same bytes.
pub proof fn law_seed_fixes_the_scenario(
    a: Result<GeneratedScenario, PlanError>,
    b: Result<GeneratedScenario, PlanError>,
    e: Env,
    profile: Seq<u8>,
    normals: LogNormals,
)
    requires
        is_generated(a, e, profile, normals),
        is_generated(b, e, profile, normals),
    ensures
        match (a, b) {
            (Ok(first), Ok(second)) => {
                &&& same_scenario(first, second)
                &&& forall|bytes: Seq<u8>, x: GeneratedScenario, y: GeneratedScenario| #[trigger]
                    is_sealed(x, first, bytes) && #[trigger] is_sealed(y, second, bytes) ==> same_scenario(x, y)
            },
            (Err(first), Err(second)) => first == second,
            _ => false,
        },
{
    if let (Ok(first), Ok(second)) = (a, b) {
        law_numbers_fix_the_scenario(first, second, seeded_draws(e.config.seed, normals), e, profile);
    }
}

/// Every generated scenario is in order: a node depends on earlier nodes alone, or on none and then
/// has an arrival of its own; the limits on nodes, sessions and input tokens hold.
pub proof fn law_generated_scenarios_are_in_order(
    scenario: GeneratedScenario,
    e: Env,
    profile: Seq<u8>,
    normals: LogNormals,
)
    requires
        is_generated(Ok(scenario), e, profile, normals),
    ensures
        forall|i: int, k: int|
            0 <= i < scenario.nodes@.len() && 0 <= k < scenario.nodes@[i].dependencies@.len()
                ==> #[trigger] scenario.nodes@[i].dependencies@[k] < i,
        forall|i: int|
            0 <= i < scenario.nodes@.len() ==> ((#[trigger] scenario.nodes@[i]).dependencies@.len() == 0
                <==> scenario.nodes@[i].initial_arrival_ms is Some),
        scenario.nodes@.len() <= e.config.max_nodes,
        scenario.sessions@.len() <= e.config.max_sessions,
        plan_totals(node_views(scenario.nodes@), scenario.nodes@.len()).0 <= e.config.max_total_input_tokens,
{
    let d = seeded_draws(e.config.seed, normals);
    let p = planned(d, e)->Ok_0;
    law_plans_are_in_order(d, e);
    assert forall|i: int| 0 <= i < scenario.nodes@.len() implies node_in_order(e.config, p, i) && p.nodes[i] == (
    #[trigger] scenario.nodes@[i])@ by {
        assert(node_in_order(e.config, p, i));
        assert(node_views(scenario.nodes@)[i] == scenario.nodes@[i]@);
    }
    assert(session_views(scenario.sessions@).len() == scenario.sessions@.len());
    assert(node_views(scenario.nodes@).len() == scenario.nodes@.len());
    assert forall|i: int, k: int|
        0 <= i < scenario.nodes@.len() && 0 <= k < scenario.nodes@[i].dependencies@.len() implies
        #[trigger] scenario.nodes@[i].dependencies@[k] < i by {
        assert(p.nodes[i] == scenario.nodes@[i]@);
        assert(p.nodes[i].dependencies[k] < i);
    }
}

/// The settings that are sampled have values.
pub open spec fn can_be_sampled(e: ResolvedGeneratorConfig) -> bool {
    &&& e.block_size > 0
    &&& has_values(e.output_tokens)
    &&& has_values(e.user_tokens)
    &&& has_values(e.think_time_ms)
    &&& has_values(e.parallel_count)
    &&& has_values(e.fanout)
    &&& has_values(e.spawn_delay_ms)
    &&& has_values(e.tool_result_tokens)
    &&& has_values(e.restart_delay_ms)
    &&& has_values(e.turns)
    &&& has_values(e.subagent_turns)
    &&& has_values(e.repository_tokens)
    &&& has_values(e.session_tokens)
    &&& has_values(e.summary_input_tokens)
    &&& has_values(e.summary_output_tokens)
    &&& has_values(e.compaction_abort_after_ms)
}

/// A turn does what its request says: a completion ends the session there, a text answer is followed
/// by a user message, a tool answer by one call or by several, and a delegation by children.
pub proof fn law_turns_do_what_they_say(d: Draws, e: Env, c: Course, place: Place, turn: nat, turns: nat)
    requires
        can_be_sampled(e.config),
        maybe_compacted(d, e, c, turn, place.arrival_ms) is Ok,
        one_turn(d, e, c, place, turn, turns) is Ok,
    ensures
        ({
            let (after, complete) = one_turn(d, e, c, place, turn, turns)->Ok_0;
            let ready = maybe_compacted(d, e, c, turn, place.arrival_ms)->Ok_0;
            let index = ready.plan.nodes.len() as int;
            let node = after.plan.nodes[index];
            let answer = answered(d, e, ready, turn, turns, place.depth as nat, place.arrival_ms);
            let action = answer->Ok_0.2;
            &&& answer is Ok
            &&& complete <==> action == NextAction::Complete
            &&& complete ==> after == answer->Ok_0.0
            &&& action == NextAction::Text ==> after.trigger == "user_message"@ && node.tool_events.len() == 0
            &&& action == NextAction::Tool ==> after.trigger == "tool_result"@ && node.tool_events.len() == 1
            &&& action == NextAction::ParallelTools ==> after.trigger == "tool_result"@ && node.tool_events.len() >= 2
            &&& action == NextAction::Subagent || action == NextAction::Swarm ==> after.trigger == "tool_result"@
            &&& action != NextAction::Subagent && action != NextAction::Swarm ==> node.spawned_session_ids.len() == 0
                && node.action == action.label() && (complete || after.dependencies == seq![index as usize])
        }),
{
    lemma_one_turn_unfold(d, e, c, place, turn, turns);
    let ready = maybe_compacted(d, e, c, turn, place.arrival_ms)->Ok_0;
    law_answers_join_the_context(d, e, ready, turn, turns, place.depth as nat, place.arrival_ms);
    let (now, node, action) = answered(d, e, ready, turn, turns, place.depth as nat, place.arrival_ms)->Ok_0;
    assert(now.plan.nodes[node as int].tool_events.len() == 0 && now.plan.nodes[node as int].spawned_session_ids.len()
        == 0) by {
        reveal(answered);
        lemma_answer_is_bare(d, e, ready, turn, turns, place.depth as nat, place.arrival_ms);
    }
    match action {
        NextAction::Complete => {},
        NextAction::Text => {
            law_users_think_before_they_write(d, e, now, turn, node);
        },
        NextAction::Tool => {
            law_tool_phases_take_their_longest_call(d, e, now, turn, node, false);
        },
        NextAction::ParallelTools => {
            law_tool_phases_take_their_longest_call(d, e, now, turn, node, true);
        },
        NextAction::Subagent => {
            law_blocking_parents_wait_for_their_children(d, e, now, place, turn, node, false);
        },
        NextAction::Swarm => {
            law_blocking_parents_wait_for_their_children(d, e, now, place, turn, node, true);
        },
    }
}

proof fn lemma_answer_is_bare(
    d: Draws,
    e: Env,
    c: Course,
    turn: nat,
    turns: nat,
    depth: nat,
    arrival_ms: Option<u64>,
)
    requires
        e.config.block_size > 0,
        has_values(e.config.output_tokens),
        answered(d, e, c, turn, turns, depth, arrival_ms) is Ok,
    ensures
        ({
            let (after, node, action) = answered(d, e, c, turn, turns, depth, arrival_ms)->Ok_0;
            after.plan.nodes[node as int].tool_events.len() == 0
                && after.plan.nodes[node as int].spawned_session_ids.len() == 0
        }),
{
    reveal(answered);
    let (after, node, action) = answered(d, e, c, turn, turns, depth, arrival_ms)->Ok_0;
    let (output_tokens, p) = take(d, c.plan, e.config.output_tokens);
    let q = if turn + 1 == turns {
        p
    } else {
        take_word(d, p).1
    };
    let draft = Draft {
        dependencies: c.dependencies,
        delay_ms: c.delay_ms,
        arrival_ms: crate::scenario::outline::first_arrival(c, arrival_ms),
        action: action.label(),
        trigger: c.trigger,
        output_tokens,
        budget_tokens: Some(output_tokens),
        attempt: None,
    };
    law_requests_become_nodes(e.config, q, c.window, draft);
    let r = requested(e.config, q, c.window, draft)->Ok_0.1;
    let scope = crate::scenario::outline::part_scope(c.window.session_id, ":assistant:"@, turn);
    lemma_segment_keeps_nodes(e.config, r, scope, output_tokens);
}

/// The first request of a session: it waits for what the session was given, or arrives when it was
/// told to.
pub open spec fn is_entry(
    node: NodeView,
    session_id: Seq<char>,
    dependencies: Seq<usize>,
    delay_ms: u64,
    arrival_ms: Option<u64>,
) -> bool {
    &&& node.dependencies == dependencies
    &&& node.delay_after_dependencies_ms == delay_ms
    &&& node.initial_arrival_ms == arrival_ms
    &&& node.request.agent_context is Some
    &&& node.request.agent_context->0.session_id == session_id
}

proof fn lemma_first_turn(d: Draws, e: Env, c: Course, place: Place, turns: nat, k: int)
    requires
        can_be_sampled(e.config),
        in_order(e.config, c.plan),
        window_fits(c.plan, c.window, k),
        place_fits(c.plan, place, k),
        c.latest is None,
        c.window.epoch == 0,
        turns > 0,
        c.plan.nodes.len() < e.config.max_nodes,
        turns_from(d, e, c, place, 0, turns) is Ok,
    ensures
        ({
            let after = turns_from(d, e, c, place, 0, turns)->Ok_0;
            &&& after.plan.nodes.len() > c.plan.nodes.len()
            &&& is_entry(
                after.plan.nodes[c.plan.nodes.len() as int],
                c.window.session_id,
                c.dependencies,
                c.delay_ms,
                place.arrival_ms,
            )
        }),
{
    lemma_turns_from_unfold(d, e, c, place, 0, turns);
    lemma_one_turn_unfold(d, e, c, place, 0, turns);
    lemma_one_turn_in_order(d, e, c, place, 0, turns, k);
    let n = c.plan.nodes.len() as int;
    let (next, complete) = one_turn(d, e, c, place, 0, turns)->Ok_0;
    law_compaction_comes_before_the_turn(d, e, c, 0, place.arrival_ms);
    let ready = maybe_compacted(d, e, c, 0, place.arrival_ms)->Ok_0;
    lemma_maybe_compacted_in_order(d, e, c, 0, place.arrival_ms, k);
    lemma_fits_grows(c.plan, ready.plan, ready.window, place, k);
    law_answers_join_the_context(d, e, ready, 0, turns, place.depth as nat, place.arrival_ms);
    lemma_answered_in_order(d, e, ready, 0, turns, place.depth as nat, place.arrival_ms, k);
    let (now, node, action) = answered(d, e, ready, 0, turns, place.depth as nat, place.arrival_ms)->Ok_0;
    lemma_fits_grows(ready.plan, now.plan, now.window, place, k);
    assert(node_in_order(e.config, now.plan, n));
    assert(is_entry(now.plan.nodes[n], c.window.session_id, c.dependencies, c.delay_ms, place.arrival_ms)) by {
        if ready.plan.nodes.len() > c.plan.nodes.len() {
            assert(same_request(ready.plan.nodes[n], now.plan.nodes[n]));
        } else {
            assert(ready == c);
        }
    }
    match action {
        NextAction::Complete => {
            assert(grows(now.plan, next.plan));
        },
        NextAction::Text => {
            lemma_after_text_in_order(d, e, now, 0, node, k);
        },
        NextAction::Tool => {
            lemma_after_tools_in_order(d, e, now, 0, node, false, k);
        },
        NextAction::ParallelTools => {
            lemma_after_tools_in_order(d, e, now, 0, node, true, k);
        },
        NextAction::Subagent => {
            lemma_after_delegation_in_order(d, e, now, place, 0, node, false, k);
        },
        NextAction::Swarm => {
            lemma_after_delegation_in_order(d, e, now, place, 0, node, true, k);
        },
    }
    assert(same_request(now.plan.nodes[n], next.plan.nodes[n]));
    if !complete {
        lemma_fits_grows(c.plan, next.plan, next.window, place, k);
        lemma_turns_in_order(d, e, next, place, 1, turns, k);
        let after = turns_from(d, e, next, place, 1, turns)->Ok_0;
        assert(same_request(next.plan.nodes[n], after.plan.nodes[n]));
    }
}

/// Where the number of turns is sampled from at a depth.
pub open spec fn turns_at(e: Env, depth: nat) -> UIntDistribution {
    if depth > 0 {
        e.config.subagent_turns
    } else {
        e.config.turns
    }
}

/// A session that is planned begins with a request of its own that waits for what it was given, or
/// arrives when it was told to. How many turns it may have is sampled, for a top-level session and
/// for a subagent each from its own distribution.
pub proof fn law_sessions_begin_where_they_are_told(
    d: Draws,
    e: Env,
    p: Plan,
    place: Place,
    parent: Option<Seq<char>>,
    dependencies: Seq<usize>,
    delay_ms: u64,
)
    requires
        can_be_sampled(e.config),
        in_order(e.config, p),
        place.depth <= e.config.max_depth,
        place.depth == 0 <==> parent is None,
        parent is Some ==> exists|s: int|
            0 <= s < p.sessions.len() && (#[trigger] p.sessions[s]).session_id == parent->0 && p.sessions[s].depth + 1
                == place.depth && p.sessions[s].top_level_session_index == place.top_level_session_index
                && p.sessions[s].top_level_stream_slot == place.top_level_stream_slot,
        session(d, e, p, place, parent, dependencies, delay_ms) is Ok,
        session(d, e, p, place, parent, dependencies, delay_ms)->Ok_0.0 is Some,
    ensures
        ({
            let (last, after) = session(d, e, p, place, parent, dependencies, delay_ms)->Ok_0;
            let entry = after.sessions[p.sessions.len() as int];
            let course = opened(d, e, p, place, parent, dependencies, delay_ms)->Ok_0;
            let turns = take(d, course.plan, turns_at(e, place.depth as nat)).0;
            &&& after.sessions.len() > p.sessions.len()
            &&& entry.parent_session_id == parent
            &&& entry.depth == place.depth
            &&& after.nodes.len() > p.nodes.len()
            &&& is_entry(
                after.nodes[p.nodes.len() as int],
                entry.session_id,
                dependencies,
                delay_ms,
                place.arrival_ms,
            )
            &&& turns > 0
            &&& exists|start: Course|
                {
                    let done = #[trigger] turns_from(d, e, start, place, 0, turns as nat);
                    done is Ok && after == done->Ok_0.plan && last == done->Ok_0.latest
                }
        }),
{
    lemma_session_unfold(d, e, p, place, parent, dependencies, delay_ms);
    assert(lineage(p, place, parent));
    lemma_opened_in_order(d, e, p, place, parent, dependencies, delay_ms);
    law_sessions_open_with_their_context(d, e, p, place, parent, dependencies, delay_ms);
    let c = opened(d, e, p, place, parent, dependencies, delay_ms)->Ok_0;
    let (turns, q) = take(
        d,
        c.plan,
        if place.depth == 0 {
            e.config.turns
        } else {
            e.config.subagent_turns
        },
    );
    assert(q == Plan { asked: q.asked, ..c.plan });
    lemma_only_numbers(e.config, c.plan, q.asked);
    let k = p.sessions.len() as int;
    lemma_fits_grows(c.plan, q, c.window, place, k);
    let c2 = Course { plan: q, ..c };
    lemma_turns_from_unfold(d, e, c2, place, 0, turns as nat);
    lemma_first_turn(d, e, c2, place, turns as nat, k);
    lemma_turns_in_order(d, e, c2, place, 0, turns as nat, k);
    let done = turns_from(d, e, c2, place, 0, turns as nat)->Ok_0;
    assert(done.plan.sessions[k] == q.sessions[k]);
    assert(c.plan.sessions.last() == c.plan.sessions[k]);
}

proof fn lemma_streams(d: Draws, e: Env, p: Plan, n: nat)
    requires
        e.config.concurrent_sessions > 0,
        top_level(d, e, p, n) is Ok,
    ensures
        top_level(d, e, p, n)->Ok_0.0.len() == e.config.concurrent_sessions,
        forall|s: int|
            0 <= s < e.config.concurrent_sessions ==> (#[trigger] top_level(d, e, p, n)->Ok_0.0[s] is Some <==> s < n),
    decreases n,
{
    reveal(top_level);
    if n > 0 {
        lemma_streams(d, e, p, (n - 1) as nat);
        let c = e.config.concurrent_sessions as int;
        let slot = (n - 1) % c;
        vstd::arithmetic::div_mod::lemma_mod_bound(n - 1, c);
        if n - 1 < c {
            vstd::arithmetic::div_mod::lemma_small_mod((n - 1) as nat, c as nat);
        }
        let before = top_level(d, e, p, (n - 1) as nat)->Ok_0.0;
        let now = top_level(d, e, p, n)->Ok_0.0;
        assert forall|s: int| 0 <= s < c implies (#[trigger] now[s] is Some <==> s < n) by {
            assert(before[s] is Some <==> s < n - 1);
        }
    }
}

/// Top-level sessions take turns on their streams. The first one of a stream arrives by itself, each
/// stream one interval after the one before it; a later one waits for the last request of the session
/// before it on its stream, and for the restart delay.
pub proof fn law_streams_run_one_session_at_a_time(d: Draws, e: Env, p: Plan, n: nat)
    requires
        can_be_sampled(e.config),
        in_order(e.config, p),
        e.config.concurrent_sessions > 0,
        n > 0,
        n - 1 <= usize::MAX,
        top_level(d, e, p, n) is Ok,
    ensures
        ({
            let c = e.config.concurrent_sessions as int;
            let slot = (n - 1) % c;
            let (before, q) = top_level(d, e, p, (n - 1) as nat)->Ok_0;
            let (now, after) = top_level(d, e, p, n)->Ok_0;
            let first = after.nodes[q.nodes.len() as int];
            let entry = after.sessions[q.sessions.len() as int];
            &&& top_level(d, e, p, (n - 1) as nat) is Ok
            &&& after.nodes.len() > q.nodes.len()
            &&& after.sessions.len() > q.sessions.len()
            &&& first.request.agent_context->0.session_id == entry.session_id
            &&& entry.depth == 0
            &&& entry.parent_session_id is None
            &&& n <= c ==> {
                &&& first.dependencies.len() == 0
                &&& first.initial_arrival_ms is Some
                &&& first.initial_arrival_ms->0 == (n - 1) * e.config.startup_interval_ms
            }
            &&& n > c ==> {
                &&& before[slot] is Some
                &&& first.dependencies == seq![before[slot]->0]
                &&& first.initial_arrival_ms is None
                &&& is_possible(e.config.restart_delay_ms, first.delay_after_dependencies_ms)
            }
            &&& now[slot] is Some
            &&& forall|s: int| 0 <= s < c && s != slot ==> #[trigger] now[s] == before[s]
        }),
{
    reveal(top_level);
    lemma_streams(d, e, p, (n - 1) as nat);
    lemma_streams(d, e, p, n);
    lemma_top_level_in_order(d, e, p, (n - 1) as nat);
    let c = e.config.concurrent_sessions as int;
    let slot = (n - 1) % c;
    vstd::arithmetic::div_mod::lemma_mod_bound(n - 1, c);
    if n - 1 < c {
        vstd::arithmetic::div_mod::lemma_small_mod((n - 1) as nat, c as nat);
    }
    let (streams, q) = top_level(d, e, p, (n - 1) as nat)->Ok_0;
    assert(streams[slot] is Some <==> slot < n - 1);
    let arrival = slot * e.config.startup_interval_ms;
    assert(arrival >= 0) by (nonlinear_arith)
        requires
            arrival == slot * e.config.startup_interval_ms,
            slot >= 0,
            e.config.startup_interval_ms >= 0,
    ;
    let (delay_ms, r) = if streams[slot] is Some {
        take(d, q, e.config.restart_delay_ms)
    } else {
        (0, q)
    };
    law_samples_are_possible(d, q, e.config.restart_delay_ms);
    assert(r == Plan { asked: r.asked, ..q });
    lemma_only_numbers(e.config, q, r.asked);
    let dependencies = match streams[slot] {
        Some(last) => seq![last],
        None => Seq::empty(),
    };
    let place = Place {
        depth: 0,
        arrival_ms: match streams[slot] {
            Some(_) => None,
            None => Some(arrival as u64),
        },
        top_level_session_index: (n - 1) as usize,
        top_level_stream_slot: slot as usize,
    };
    law_sessions_begin_where_they_are_told(d, e, r, place, None, dependencies, delay_ms);
    if n > c {
        assert(slot < n - 1);
    } else {
        assert(slot == n - 1);
    }
}

} // verus!
