//! What each step of a plan does to the session that takes it.

use crate::numeric::ceil_div;
use crate::scenario::config::ResolvedGeneratorConfig;
use crate::scenario::distribution::UIntDistribution;
use crate::scenario::model::{CompactionExpectedEffect, NodeView};
use crate::scenario::outline::{
    action_for, after_delegation, after_text, after_tools, answered, appended, attempt_effects, attempts,
    block_owner, candidate, child_count, children, compacted, compaction_due, drafted_node, first_free, labelled,
    labelled_blocks, labels_in_use, lemma_after_delegation_unfold, lemma_children_unfold, lemma_session_unfold,
    lemma_turns_from_unfold, maybe_compacted, one_turn, opened, operated, part_scope, requested, segment, session,
    session_name, started, take, take_chance, take_word, tool_call, tool_calls, tool_from, tool_scope, turns_from,
    Course, Draft, Env, NextAction, Place, Plan, Window,
};
use crate::scenario::source::{sampled, Draws};
use vstd::prelude::*;

verus! {

/// So many blocks hold so many tokens, and one block less would not.
pub open spec fn just_hold(blocks: int, block_size: int, tokens: int) -> bool {
    &&& 0 <= blocks
    &&& tokens <= blocks * block_size
    &&& blocks > 0 ==> (blocks - 1) * block_size < tokens
}

/// `after` holds the blocks of `before` and then just as many more as hold `tokens`.
pub open spec fn extended(e: ResolvedGeneratorConfig, before: Seq<u64>, after: Seq<u64>, tokens: int) -> bool {
    &&& before.is_prefix_of(after)
    &&& just_hold(after.len() - before.len(), e.block_size as int, tokens)
}

/// Two contexts of one session, in the same epoch.
pub open spec fn same_session(a: Window, b: Window) -> bool {
    &&& a.session_id == b.session_id
    &&& a.parent_session_id == b.parent_session_id
    &&& a.stable_blocks == b.stable_blocks
    &&& a.epoch == b.epoch
}

/// A value lies between the bounds of a distribution.
pub open spec fn is_possible(distribution: UIntDistribution, value: u64) -> bool {
    match distribution {
        UIntDistribution::Fixed { value: only } => value == only,
        UIntDistribution::Uniform { min, max } => min <= value <= max,
        UIntDistribution::LogNormal { median: _, sigma: _, min, max } => min <= value <= max,
    }
}

/// A distribution whose bounds are in order.
pub open spec fn has_values(distribution: UIntDistribution) -> bool {
    match distribution {
        UIntDistribution::Fixed { value: _ } => true,
        UIntDistribution::Uniform { min, max } => min <= max,
        UIntDistribution::LogNormal { median: _, sigma: _, min, max } => min <= max,
    }
}

/// Rounding up gives the least number of parts that hold all.
pub proof fn law_rounding_up_just_holds(dividend: nat, divisor: nat)
    requires
        divisor > 0,
    ensures
        just_hold(ceil_div(dividend, divisor) as int, divisor as int, dividend as int),
{
    let a = (dividend + divisor - 1) as int;
    let q = ceil_div(dividend, divisor) as int;
    let b = divisor as int;
    vstd::arithmetic::div_mod::lemma_fundamental_div_mod(a, b);
    vstd::arithmetic::div_mod::lemma_div_pos_is_pos(a, b);
    assert(dividend <= q * b) by (nonlinear_arith)
        requires
            a == b * q + a % b,
            0 <= a % b < b,
            a == dividend + b - 1,
    ;
    assert((q - 1) * b < dividend) by (nonlinear_arith)
        requires
            a == b * q + a % b,
            0 <= a % b < b,
            a == dividend + b - 1,
    ;
}

/// A sampled value lies between the bounds of its distribution.
pub proof fn law_samples_are_possible(d: Draws, p: Plan, distribution: UIntDistribution)
    requires
        has_values(distribution),
    ensures
        is_possible(distribution, take(d, p, distribution).0),
        take(d, p, distribution).1 == (Plan { asked: take(d, p, distribution).1.asked, ..p }),
{
}

proof fn lemma_blocks(e: ResolvedGeneratorConfig, p: Plan, scope: Seq<char>, n: nat)
    requires
        labelled_blocks(e, p, scope, n) is Ok,
    ensures
        labelled_blocks(e, p, scope, n)->Ok_0.0.len() == n,
        labelled_blocks(e, p, scope, n)->Ok_0.1 == (Plan {
            labels: labelled_blocks(e, p, scope, n)->Ok_0.1.labels,
            ..p
        }),
    decreases n,
{
    if n > 0 {
        lemma_blocks(e, p, scope, (n - 1) as nat);
    }
}

proof fn lemma_segment(e: ResolvedGeneratorConfig, p: Plan, scope: Seq<char>, tokens: u64)
    requires
        e.block_size > 0,
        segment(e, p, scope, tokens) is Ok,
    ensures
        just_hold(segment(e, p, scope, tokens)->Ok_0.0.len() as int, e.block_size as int, tokens as int),
        segment(e, p, scope, tokens)->Ok_0.1 == (Plan {
            labels: segment(e, p, scope, tokens)->Ok_0.1.labels,
            ..p
        }),
{
    law_rounding_up_just_holds(tokens as nat, e.block_size as nat);
    lemma_blocks(e, p, scope, ceil_div(tokens as nat, e.block_size as nat));
}

proof fn lemma_appended(e: ResolvedGeneratorConfig, p: Plan, w: Window, scope: Seq<char>, tokens: u64)
    requires
        e.block_size > 0,
        appended(e, p, w, scope, tokens) is Ok,
    ensures
        extended(e, w.blocks, appended(e, p, w, scope, tokens)->Ok_0.0.blocks, tokens as int),
        same_session(w, appended(e, p, w, scope, tokens)->Ok_0.0),
        appended(e, p, w, scope, tokens)->Ok_0.1 == (Plan {
            labels: appended(e, p, w, scope, tokens)->Ok_0.1.labels,
            ..p
        }),
{
    lemma_segment(e, p, scope, tokens);
    let after = appended(e, p, w, scope, tokens)->Ok_0.0;
    assert(after.blocks.take(w.blocks.len() as int) =~= w.blocks);
}

/// A segment is as many blocks as just hold its tokens.
pub proof fn law_segments_hold_their_tokens(e: ResolvedGeneratorConfig, p: Plan, scope: Seq<char>, tokens: u64)
    requires
        e.block_size > 0,
        segment(e, p, scope, tokens) is Ok,
    ensures
        just_hold(segment(e, p, scope, tokens)->Ok_0.0.len() as int, e.block_size as int, tokens as int),
{
    lemma_segment(e, p, scope, tokens);
}

// ---------------------------------------------------------------------------------------------
// Requests
// ---------------------------------------------------------------------------------------------

/// A request becomes the next node: what it waits for and how long, when it arrives, what it holds,
/// and what it may answer with.
pub proof fn law_requests_become_nodes(e: ResolvedGeneratorConfig, p: Plan, w: Window, draft: Draft)
    requires
        requested(e, p, w, draft) is Ok,
    ensures
        ({
            let (index, q) = requested(e, p, w, draft)->Ok_0;
            let node = q.nodes[index as int];
            &&& index == p.nodes.len()
            &&& q.nodes.len() == p.nodes.len() + 1
            &&& q.nodes.take(index as int) == p.nodes
            &&& q.sessions == p.sessions
            &&& q.operations == p.operations
            &&& q.labels == p.labels
            &&& q.prefix == p.prefix
            &&& q.total_input_tokens == p.total_input_tokens + node.request.input_tokens
            &&& node.dependencies == draft.dependencies
            &&& node.delay_after_dependencies_ms == draft.delay_ms
            &&& node.initial_arrival_ms == draft.arrival_ms
            &&& node.action == draft.action
            &&& node.window_epoch == w.epoch
            &&& node.tool_events.len() == 0
            &&& node.spawned_session_ids.len() == 0
            &&& node.compaction_attempt == draft.attempt
            &&& node.request.output_tokens == draft.output_tokens
            &&& draft.budget_tokens is None <==> node.output_budget_tokens is None
            &&& draft.budget_tokens is Some ==> node.output_budget_tokens->0 == draft.budget_tokens->0
            &&& node.request.input_sequence_hashes == w.blocks
            &&& node.request.input_tokens == w.blocks.len() * e.block_size
            &&& node.request.agent_context is Some
            &&& node.request.agent_context->0.session_id == w.session_id
            &&& node.request.agent_context->0.parent_session_id == w.parent_session_id
            &&& node.request.agent_context->0.input_trigger == Some(draft.trigger)
            &&& node.request.agent_context->0.compaction is Some <==> draft.attempt is Some
            &&& draft.arrival_ms is Some ==> node.request.request_received_ms == draft.arrival_ms->0
            &&& draft.arrival_ms is Some <==> draft.dependencies.len() == 0
            &&& q.nodes.len() <= e.max_nodes
            &&& q.total_input_tokens <= e.max_total_input_tokens
            &&& draft.attempt is None ==> node.request.output_tokens > 0
        }),
{
    let q = requested(e, p, w, draft)->Ok_0.1;
    assert(q.nodes.take(p.nodes.len() as int) =~= p.nodes);
    assert(w.blocks.len() * e.block_size <= usize::MAX && w.blocks.len() * e.block_size >= 0) by (nonlinear_arith)
        requires
            w.blocks.len() * e.block_size <= usize::MAX,
            w.blocks.len() >= 0,
            e.block_size >= 0,
    ;
}

/// A model request takes the next node. It waits for what the session waits for, holds the whole
/// context, and is held to the output that it is planned with; the answer joins the context, and the
/// session goes on from there. The last turn completes the session, the first of several does not,
/// and no session delegates below the greatest depth.
pub proof fn law_answers_join_the_context(
    d: Draws,
    e: Env,
    c: Course,
    turn: nat,
    turns: nat,
    depth: nat,
    arrival_ms: Option<u64>,
)
    requires
        e.config.block_size > 0,
        has_values(e.config.output_tokens),
        answered(d, e, c, turn, turns, depth, arrival_ms) is Ok,
    ensures
        ({
            let (after, index, action) = answered(d, e, c, turn, turns, depth, arrival_ms)->Ok_0;
            let node = after.plan.nodes[index as int];
            &&& index == c.plan.nodes.len()
            &&& after.plan.nodes.len() == c.plan.nodes.len() + 1
            &&& after.plan.nodes.take(index as int) == c.plan.nodes
            &&& node.dependencies == c.dependencies
            &&& node.delay_after_dependencies_ms == c.delay_ms
            &&& node.initial_arrival_ms == if c.latest is None {
                arrival_ms
            } else {
                None
            }
            &&& node.request.input_sequence_hashes == c.window.blocks
            &&& node.request.agent_context->0.session_id == c.window.session_id
            &&& node.request.agent_context->0.parent_session_id == c.window.parent_session_id
            &&& node.request.agent_context->0.input_trigger == Some(c.trigger)
            &&& node.output_budget_tokens == Some(node.request.output_tokens)
            &&& is_possible(e.config.output_tokens, node.request.output_tokens as u64)
            &&& node.compaction_attempt is None
            &&& node.window_epoch == c.window.epoch
            &&& node.action == action.label()
            &&& extended(e.config, c.window.blocks, after.window.blocks, node.request.output_tokens as int)
            &&& same_session(c.window, after.window)
            &&& after.dependencies == seq![index]
            &&& after.latest == Some(index)
            &&& after.plan.sessions == c.plan.sessions
            &&& after.plan.operations == c.plan.operations
            &&& turn + 1 == turns ==> action == NextAction::Complete
            &&& turn == 0 && turns >= 2 ==> action != NextAction::Complete
            &&& depth >= e.config.max_depth ==> action != NextAction::Subagent && action != NextAction::Swarm
        }),
{
    reveal(answered);
    let (after, index, action) = answered(d, e, c, turn, turns, depth, arrival_ms)->Ok_0;
    let (output_tokens, p) = take(d, c.plan, e.config.output_tokens);
    law_samples_are_possible(d, c.plan, e.config.output_tokens);
    let q = if turn + 1 == turns {
        p
    } else {
        take_word(d, p).1
    };
    let draft = Draft {
        dependencies: c.dependencies,
        delay_ms: c.delay_ms,
        arrival_ms: if c.latest is None {
            arrival_ms
        } else {
            None
        },
        action: action.label(),
        trigger: c.trigger,
        output_tokens,
        budget_tokens: Some(output_tokens),
        attempt: None,
    };
    assert(requested(e.config, q, c.window, draft) is Ok);
    law_requests_become_nodes(e.config, q, c.window, draft);
    let r = requested(e.config, q, c.window, draft)->Ok_0.1;
    let scope = crate::scenario::outline::part_scope(c.window.session_id, ":assistant:"@, turn);
    lemma_appended(e.config, r, c.window, scope, output_tokens);
}

// ---------------------------------------------------------------------------------------------
// What follows an answer
// ---------------------------------------------------------------------------------------------

/// What a random word selects: the lower draws a tool, the next ones several tools, then a subagent
/// and a swarm where there is room below, and then, where it is allowed, completion.
pub proof fn law_actions_split_the_draws(e: Env, word: u64, depth: nat, allow_completion: bool)
    ensures
        ({
            let action = action_for(e, word, depth, allow_completion);
            let sums = e.tables.sums;
            let below = depth < e.config.max_depth;
            let draw = word / 2048;
            &&& draw < e.config.tool_probability.draws_below() <==> action == NextAction::Tool
            &&& action == NextAction::ParallelTools ==> draw < sums.with_parallel.draws_below()
            &&& action == NextAction::Subagent ==> below && draw < sums.with_subagent.draws_below() && draw
                >= sums.with_parallel.draws_below()
            &&& action == NextAction::Swarm ==> below && draw < sums.with_swarm.draws_below() && draw
                >= sums.with_subagent.draws_below()
            &&& action == NextAction::Complete ==> allow_completion && draw >= sums.with_parallel.draws_below()
            &&& action == NextAction::Complete ==> draw < if below {
                sums.with_completion.draws_below()
            } else {
                sums.leaf_completion.draws_below()
            }
            &&& action == NextAction::Text && allow_completion && below ==> draw >= sums.with_completion.draws_below()
            &&& action == NextAction::Text && allow_completion && !below ==> draw
                >= sums.leaf_completion.draws_below()
            &&& action == NextAction::Text || action == NextAction::Complete ==> draw
                >= e.config.tool_probability.draws_below() && draw >= sums.with_parallel.draws_below() && (below
                ==> draw >= sums.with_subagent.draws_below() && draw >= sums.with_swarm.draws_below())
        }),
{
}

/// A random word selects the tool class whose share of the draws it falls in.
pub proof fn law_classes_split_the_draws(e: Env, word: u64, k: nat)
    requires
        k < e.config.tool_classes@.len(),
        e.tables.tool_draws@.len() == e.config.tool_classes@.len(),
    ensures
        k <= tool_from(e, word, k) < e.config.tool_classes@.len(),
        tool_from(e, word, k) + 1 < e.config.tool_classes@.len() ==> word / 2048 < e.tables.tool_draws@[tool_from(
            e,
            word,
            k,
        ) as int],
        forall|j: int| k <= j < tool_from(e, word, k) ==> word / 2048 >= #[trigger] e.tables.tool_draws@[j],
    decreases e.config.tool_classes@.len() - k,
{
    if k + 1 < e.config.tool_classes@.len() && word / 2048 >= e.tables.tool_draws@[k as int] {
        law_classes_split_the_draws(e, word, k + 1);
    }
}

/// A user message follows a text answer: it joins the context, and the next request waits for the
/// answer and for the user to think.
pub proof fn law_users_think_before_they_write(d: Draws, e: Env, c: Course, turn: nat, node: usize)
    requires
        e.config.block_size > 0,
        has_values(e.config.user_tokens),
        has_values(e.config.think_time_ms),
        after_text(d, e, c, turn, node) is Ok,
    ensures
        ({
            let after = after_text(d, e, c, turn, node)->Ok_0;
            let user_tokens = sampled(e.config.user_tokens, d, c.plan.asked).0;
            &&& after.dependencies == seq![node]
            &&& is_possible(e.config.think_time_ms, after.delay_ms)
            &&& after.trigger == "user_message"@
            &&& after.latest == c.latest
            &&& is_possible(e.config.user_tokens, user_tokens)
            &&& extended(e.config, c.window.blocks, after.window.blocks, user_tokens as int)
            &&& same_session(c.window, after.window)
            &&& after.plan.nodes == c.plan.nodes
            &&& after.plan.sessions == c.plan.sessions
            &&& after.plan.operations == c.plan.operations
        }),
{
    reveal(after_text);
    let (user_tokens, p) = take(d, c.plan, e.config.user_tokens);
    law_samples_are_possible(d, c.plan, e.config.user_tokens);
    let scope = crate::scenario::outline::part_scope(c.window.session_id, ":user:"@, turn + 1);
    lemma_appended(e.config, p, c.window, scope, user_tokens);
    let q = appended(e.config, p, c.window, scope, user_tokens)->Ok_0.1;
    law_samples_are_possible(d, q, e.config.think_time_ms);
}

/// A tool call is one of a configured class. It takes as long, and returns as much, as its class
/// allows; one that is retried, which only failed ones are, takes and returns twice.
pub proof fn law_calls_are_of_their_class(d: Draws, e: Env, p: Plan)
    requires
        e.config.tool_classes@.len() > 0,
        forall|k: int|
            0 <= k < e.config.tool_classes@.len() ==> has_values((#[trigger] e.config.tool_classes@[k]).latency_ms)
                && has_values(e.config.tool_classes@[k].result_tokens),
    ensures
        ({
            let (event, q) = tool_call(d, e, p);
            &&& q == (Plan { asked: q.asked, ..p })
            &&& event.retried ==> event.failed
            &&& exists|k: int|
                {
                    let class = #[trigger] e.config.tool_classes@[k];
                    &&& 0 <= k < e.config.tool_classes@.len()
                    &&& event.class == class.name@
                    &&& !event.retried ==> is_possible(class.latency_ms, event.latency_ms) && is_possible(
                        class.result_tokens,
                        event.result_tokens,
                    )
                    &&& event.retried ==> exists|a: u64, b: u64|
                        is_possible(class.latency_ms, a) && is_possible(class.latency_ms, b)
                            && #[trigger] twice(event.latency_ms, a, b)
                    &&& event.retried ==> exists|a: u64, b: u64|
                        is_possible(class.result_tokens, a) && is_possible(class.result_tokens, b)
                            && #[trigger] twice(event.result_tokens, a, b)
                }
        }),
{
    let (word, p1) = take_word(d, p);
    lemma_tool_from(e, word, 0);
    let k = tool_from(e, word, 0) as int;
    let class = e.config.tool_classes@[k];
    let (latency, p2) = take(d, p1, class.latency_ms);
    let (result, p3) = take(d, p2, class.result_tokens);
    let (failed, p4) = take_chance(d, p3, class.error_probability);
    let (retried, p5) = if failed {
        take_chance(d, p4, e.config.retry_probability)
    } else {
        (false, p4)
    };
    law_samples_are_possible(d, p1, class.latency_ms);
    law_samples_are_possible(d, p2, class.result_tokens);
    if retried {
        let (more_latency, p6) = take(d, p5, class.latency_ms);
        let (more_result, p7) = take(d, p6, class.result_tokens);
        law_samples_are_possible(d, p5, class.latency_ms);
        law_samples_are_possible(d, p6, class.result_tokens);
        let event = tool_call(d, e, p).0;
        assert(twice(event.latency_ms, latency, more_latency));
        assert(twice(event.result_tokens, result, more_result));
    }
}

/// The sum of two values, or the largest number where that is less.
pub open spec fn twice(sum: u64, a: u64, b: u64) -> bool {
    sum == a + b || sum == u64::MAX && a + b > u64::MAX
}

proof fn lemma_tool_from(e: Env, word: u64, k: nat)
    requires
        e.config.tool_classes@.len() > 0,
        k < e.config.tool_classes@.len(),
    ensures
        0 <= tool_from(e, word, k) < e.config.tool_classes@.len(),
    decreases e.config.tool_classes@.len() - k,
{
    if k + 1 < e.config.tool_classes@.len() {
        lemma_tool_from(e, word, k + 1);
    }
}

/// The tokens that the first `n` results have together, each one rounded up to whole blocks.
pub open spec fn result_blocks(e: ResolvedGeneratorConfig, results: Seq<u64>, n: nat) -> int
    decreases n,
{
    if n == 0 {
        0
    } else {
        result_blocks(e, results, (n - 1) as nat) + ceil_div(results[n - 1] as nat, e.block_size as nat) as int
    }
}

proof fn lemma_tool_calls(d: Draws, e: Env, c: Course, turn: nat, n: nat)
    requires
        e.config.block_size > 0,
        tool_calls(d, e, c, turn, n) is Ok,
    ensures
        ({
            let (events, longest, after) = tool_calls(d, e, c, turn, n)->Ok_0;
            &&& events.len() == n
            &&& c.window.blocks.is_prefix_of(after.window.blocks)
            &&& after.window.blocks.len() == c.window.blocks.len() + result_blocks(
                e.config,
                Seq::new(n, |i: int| events[i].result_tokens),
                n,
            )
            &&& same_session(c.window, after.window)
            &&& after.plan.nodes == c.plan.nodes
            &&& after.plan.sessions == c.plan.sessions
            &&& after.plan.operations == c.plan.operations
            &&& after.latest == c.latest
            &&& forall|i: int| 0 <= i < n ==> (#[trigger] events[i]).latency_ms <= longest
            &&& n > 0 ==> exists|i: int| 0 <= i < n && (#[trigger] events[i]).latency_ms == longest
        }),
    decreases n,
{
    if n > 0 {
        lemma_tool_calls(d, e, c, turn, (n - 1) as nat);
        let (before, held, now) = tool_calls(d, e, c, turn, (n - 1) as nat)->Ok_0;
        let (events, longest, after) = tool_calls(d, e, c, turn, n)->Ok_0;
        let (event, p) = tool_call(d, e, now.plan);
        let scope = crate::scenario::outline::tool_scope(
            now.window.session_id,
            turn,
            (n - 1) as nat,
            event.class,
            event.failed,
        );
        lemma_appended(e.config, p, now.window, scope, event.result_tokens);
        lemma_blocks(e.config, p, scope, ceil_div(event.result_tokens as nat, e.config.block_size as nat));
        let fewer = Seq::new((n - 1) as nat, |i: int| before[i].result_tokens);
        let all = Seq::new(n, |i: int| events[i].result_tokens);
        lemma_result_blocks(e.config, fewer, all, (n - 1) as nat);
        assert(events[n - 1] == event);
        assert forall|i: int| 0 <= i < n implies (#[trigger] events[i]).latency_ms <= longest by {
            if i < n - 1 {
                assert(events[i] == before[i]);
            }
        }
        if longest != event.latency_ms {
            let i = choose|i: int| 0 <= i < n - 1 && (#[trigger] before[i]).latency_ms == held;
            assert(events[i] == before[i]);
        }
        assert(c.window.blocks.is_prefix_of(after.window.blocks)) by {
            assert(after.window.blocks.take(c.window.blocks.len() as int) =~= now.window.blocks.take(
                c.window.blocks.len() as int,
            ));
        }
    } else {
        assert(c.window.blocks.take(c.window.blocks.len() as int) =~= c.window.blocks);
    }
}

proof fn lemma_result_blocks(e: ResolvedGeneratorConfig, a: Seq<u64>, b: Seq<u64>, n: nat)
    requires
        n <= a.len(),
        n <= b.len(),
        forall|i: int| 0 <= i < n ==> a[i] == b[i],
    ensures
        result_blocks(e, a, n) == result_blocks(e, b, n),
    decreases n,
{
    if n > 0 {
        lemma_result_blocks(e, a, b, (n - 1) as nat);
    }
}

/// A tool phase notes its calls on the answer that asked for them: one, or as many as sampled and at
/// least two where they run at the same time. Their results join the context, and the next request
/// waits for the answer and for the longest of the calls, no longer.
pub proof fn law_tool_phases_take_their_longest_call(
    d: Draws,
    e: Env,
    c: Course,
    turn: nat,
    node: usize,
    parallel: bool,
)
    requires
        e.config.block_size > 0,
        has_values(e.config.parallel_count),
        node < c.plan.nodes.len(),
        after_tools(d, e, c, turn, node, parallel) is Ok,
    ensures
        ({
            let after = after_tools(d, e, c, turn, node, parallel)->Ok_0;
            let noted = after.plan.nodes[node as int];
            let events = noted.tool_events;
            let sampled_count = sampled(e.config.parallel_count, d, c.plan.asked).0;
            &&& !parallel ==> events.len() == 1
            &&& parallel && sampled_count < 2 ==> events.len() == 2
            &&& parallel && sampled_count >= 2 ==> events.len() == sampled_count
            &&& exists|i: int| 0 <= i < events.len() && (#[trigger] events[i]).latency_ms == after.delay_ms
            &&& forall|i: int| 0 <= i < events.len() ==> (#[trigger] events[i]).latency_ms <= after.delay_ms
            &&& after.dependencies == seq![node]
            &&& after.trigger == "tool_result"@
            &&& after.latest == c.latest
            &&& c.window.blocks.is_prefix_of(after.window.blocks)
            &&& after.window.blocks.len() == c.window.blocks.len() + result_blocks(
                e.config,
                Seq::new(events.len(), |i: int| events[i].result_tokens),
                events.len(),
            )
            &&& same_session(c.window, after.window)
            &&& after.plan.sessions == c.plan.sessions
            &&& after.plan.operations == c.plan.operations
            &&& after.plan.nodes.len() == c.plan.nodes.len()
            &&& noted == (NodeView { tool_events: events, ..c.plan.nodes[node as int] })
            &&& forall|j: int|
                0 <= j < c.plan.nodes.len() && j != node ==> after.plan.nodes[j] == #[trigger] c.plan.nodes[j]
        }),
{
    reveal(after_tools);
    let (sampled_count, p) = if parallel {
        take(d, c.plan, e.config.parallel_count)
    } else {
        (1, c.plan)
    };
    let count = if parallel && sampled_count < 2 {
        2
    } else {
        sampled_count as nat
    };
    lemma_tool_calls(d, e, (Course { plan: p, ..c }), turn, count);
}

/// How many sessions a plan still has room for.
pub open spec fn sessions_left(e: Env, p: Plan) -> int {
    e.config.max_sessions - p.sessions.len()
}

/// A delegation asks for one child, or for as many as sampled and at least two in a swarm, and gets
/// no more than there is room for.
pub proof fn law_delegations_fit(e: Env, p: Plan, wanted: nat)
    ensures
        child_count(e, p, wanted) <= wanted,
        sessions_left(e, p) >= 0 ==> child_count(e, p, wanted) <= sessions_left(e, p),
        wanted <= sessions_left(e, p) ==> child_count(e, p, wanted) == wanted,
        wanted > sessions_left(e, p) && sessions_left(e, p) >= 0 ==> child_count(e, p, wanted) == sessions_left(e, p),
        sessions_left(e, p) < 0 ==> child_count(e, p, wanted) == 0,
{
}

/// The parent of a delegation goes on from the last request of every child that it waits for, or
/// else from its own answer; the join result joins its context.
pub proof fn law_blocking_parents_wait_for_their_children(
    d: Draws,
    e: Env,
    c: Course,
    place: Place,
    turn: nat,
    node: usize,
    swarm: bool,
)
    requires
        e.config.block_size > 0,
        has_values(e.config.spawn_delay_ms),
        has_values(e.config.fanout),
        has_values(e.config.tool_result_tokens),
        after_delegation(d, e, c, place, turn, node, swarm) is Ok,
    ensures
        ({
            let after = after_delegation(d, e, c, place, turn, node, swarm)->Ok_0;
            let (count, p) = if swarm {
                take(d, c.plan, e.config.fanout)
            } else {
                (1, c.plan)
            };
            let (blocking, q) = take_chance(d, p, e.config.blocking_probability);
            let wanted = if swarm && count < 2 {
                2
            } else {
                count as nat
            };
            let spawned = children(d, e, q, place, c.window.session_id, node, child_count(e, p, wanted));
            &&& spawned is Ok
            &&& blocking && spawned->Ok_0.0.len() > 0 ==> after.dependencies == spawned->Ok_0.0
            &&& !blocking || spawned->Ok_0.0.len() == 0 ==> after.dependencies == seq![node]
            &&& node < spawned->Ok_0.2.nodes.len() ==> after.plan.nodes[node as int].spawned_session_ids
                == spawned->Ok_0.1
            &&& is_possible(e.config.spawn_delay_ms, after.delay_ms)
            &&& after.trigger == "tool_result"@
            &&& after.latest == c.latest
            &&& c.window.blocks.is_prefix_of(after.window.blocks)
            &&& exists|tokens: u64| #[trigger]
                is_possible(e.config.tool_result_tokens, tokens) && extended(
                    e.config,
                    c.window.blocks,
                    after.window.blocks,
                    tokens as int,
                )
            &&& same_session(c.window, after.window)
        }),
{
    lemma_after_delegation_unfold(d, e, c, place, turn, node, swarm);
    let (count, p) = if swarm {
        take(d, c.plan, e.config.fanout)
    } else {
        (1, c.plan)
    };
    let wanted = if swarm && count < 2 {
        2
    } else {
        count as nat
    };
    let (blocking, q) = take_chance(d, p, e.config.blocking_probability);
    let (finals, ids, r) = children(d, e, q, place, c.window.session_id, node, child_count(e, p, wanted))->Ok_0;
    let spawned = Plan {
        nodes: r.nodes.update(node as int, NodeView { spawned_session_ids: ids, ..r.nodes[node as int] }),
        ..r
    };
    let (join_tokens, s) = take(d, spawned, e.config.tool_result_tokens);
    law_samples_are_possible(d, spawned, e.config.tool_result_tokens);
    let scope = crate::scenario::outline::part_scope(c.window.session_id, ":join:"@, turn);
    lemma_appended(e.config, s, c.window, scope, join_tokens);
    let t = appended(e.config, s, c.window, scope, join_tokens)->Ok_0.1;
    law_samples_are_possible(d, t, e.config.spawn_delay_ms);
}

/// Each child that is planned is a session of its own below the parent, one level deeper, that waits
/// for the parent's answer; its last request and its identifier are listed.
pub proof fn law_children_start_from_the_answer(
    d: Draws,
    e: Env,
    p: Plan,
    place: Place,
    session_id: Seq<char>,
    node: usize,
    n: nat,
)
    requires
        n > 0,
        place.depth < e.config.max_depth,
        has_values(e.config.spawn_delay_ms),
        children(d, e, p, place, session_id, node, n) is Ok,
    ensures
        ({
            let (finals, ids, s) = children(d, e, p, place, session_id, node, n)->Ok_0;
            let (before, earlier, q) = children(d, e, p, place, session_id, node, (n - 1) as nat)->Ok_0;
            &&& children(d, e, p, place, session_id, node, (n - 1) as nat) is Ok
            &&& exists|delay_ms: u64, r: Plan, child: Place|
                {
                    let outcome = #[trigger] session(d, e, r, child, Some(session_id), seq![node], delay_ms);
                    &&& is_possible(e.config.spawn_delay_ms, delay_ms)
                    &&& r == (Plan { asked: r.asked, ..q })
                    &&& child.depth == place.depth + 1
                    &&& child.arrival_ms is None
                    &&& child.top_level_session_index == place.top_level_session_index
                    &&& child.top_level_stream_slot == place.top_level_stream_slot
                    &&& outcome is Ok
                    &&& s == outcome->Ok_0.1
                    &&& match outcome->Ok_0.0 {
                        Some(last) => finals == before.push(last) && ids == earlier.push(
                            s.sessions[q.sessions.len() as int].session_id,
                        ),
                        None => finals == before && ids == earlier,
                    }
                }
        }),
{
    lemma_children_unfold(d, e, p, place, session_id, node, n);
    let q = children(d, e, p, place, session_id, node, (n - 1) as nat)->Ok_0.2;
    law_samples_are_possible(d, q, e.config.spawn_delay_ms);
    let (delay_ms, r) = take(d, q, e.config.spawn_delay_ms);
    let child = Place { depth: (place.depth + 1) as usize, arrival_ms: None, ..place };
    assert(session(d, e, r, child, Some(session_id), seq![node], delay_ms) is Ok);
}

/// Below the greatest depth there are no children, and none are planned where none are asked for.
pub proof fn law_no_children_below_the_greatest_depth(
    d: Draws,
    e: Env,
    p: Plan,
    place: Place,
    session_id: Seq<char>,
    node: usize,
    n: nat,
)
    requires
        n == 0 || place.depth >= e.config.max_depth,
    ensures
        children(d, e, p, place, session_id, node, n) is Ok,
        children(d, e, p, place, session_id, node, n)->Ok_0.0.len() == 0,
        children(d, e, p, place, session_id, node, n)->Ok_0.1.len() == 0,
        children(d, e, p, place, session_id, node, n)->Ok_0.2 == p,
{
    lemma_children_unfold(d, e, p, place, session_id, node, n);
}

// ---------------------------------------------------------------------------------------------
// Compaction
// ---------------------------------------------------------------------------------------------

/// Compaction starts exactly where it is enabled and the context has reached the trigger.
pub proof fn law_compaction_starts_at_the_trigger(e: Env, w: Window)
    ensures
        compaction_due(e, w) <==> e.config.compaction_enabled && w.blocks.len() * e.config.block_size
            >= e.tables.compaction_trigger_tokens,
{
}

/// The physical attempts at a compaction: exactly one of them applies; at most one aborted attempt
/// comes before it, and at most one duplicate behind it.
pub proof fn law_one_attempt_applies(aborts: bool, duplicates: bool)
    ensures
        ({
            let effects = attempt_effects(aborts, duplicates);
            let applied = if aborts {
                1int
            } else {
                0
            };
            &&& effects.len() == 1 + applied + if duplicates {
                1int
            } else {
                0
            }
            &&& forall|i: int|
                0 <= i < effects.len() ==> {
                    &&& #[trigger] effects[i] == CompactionExpectedEffect::ApplyOnce <==> i == applied
                    &&& effects[i] == CompactionExpectedEffect::NoMutationAborted <==> i < applied
                    &&& effects[i] == CompactionExpectedEffect::DuplicateNoop <==> i > applied
                }
        }),
{
}

proof fn lemma_attempts(
    d: Draws,
    e: ResolvedGeneratorConfig,
    c: Course,
    operation: Seq<char>,
    arrival_ms: Option<u64>,
    summary_tokens: u64,
    effects: Seq<CompactionExpectedEffect>,
    n: nat,
)
    requires
        n <= effects.len() <= 3,
        has_values(e.compaction_abort_after_ms),
        attempts(d, e, c, operation, arrival_ms, summary_tokens, effects, n) is Ok,
    ensures
        ({
            let (list, q) = attempts(d, e, c, operation, arrival_ms, summary_tokens, effects, n)->Ok_0;
            &&& list.len() == n
            &&& q.nodes.len() == c.plan.nodes.len() + n
            &&& q.nodes.take(c.plan.nodes.len() as int) == c.plan.nodes
            &&& q.sessions == c.plan.sessions
            &&& q.operations == c.plan.operations
            &&& forall|i: int|
                0 <= i < n ==> #[trigger] is_try(
                    e,
                    c,
                    operation,
                    arrival_ms,
                    summary_tokens,
                    effects[i],
                    q.nodes,
                    list,
                    i,
                )
        }),
    decreases n,
{
    if n > 0 {
        lemma_attempts(d, e, c, operation, arrival_ms, summary_tokens, effects, (n - 1) as nat);
        let (before, p) = attempts(d, e, c, operation, arrival_ms, summary_tokens, effects, (n - 1) as nat)->Ok_0;
        let (list, r) = attempts(d, e, c, operation, arrival_ms, summary_tokens, effects, n)->Ok_0;
        let effect = effects[n - 1];
        let (abort_after_ms, q) = if effect == CompactionExpectedEffect::NoMutationAborted {
            let (delay, q) = take(d, p, e.compaction_abort_after_ms);
            (Some(delay), q)
        } else {
            (None, p)
        };
        law_samples_are_possible(d, p, e.compaction_abort_after_ms);
        let draft = Draft {
            dependencies: if n == 1 {
                c.dependencies
            } else {
                seq![before.last()]
            },
            delay_ms: if n == 1 {
                c.delay_ms
            } else {
                0
            },
            arrival_ms: if n == 1 {
                arrival_ms
            } else {
                None
            },
            action: "compaction_attempt"@,
            trigger: "other"@,
            output_tokens: if effect == CompactionExpectedEffect::ApplyOnce {
                summary_tokens
            } else {
                0
            },
            budget_tokens: None,
            attempt: Some(
                crate::scenario::model::AttemptView {
                    operation_id: operation,
                    phase: "pre_turn"@,
                    attempt: n as usize,
                    expected_effect: effect,
                    abort_after_ms,
                },
            ),
        };
        law_requests_become_nodes(e, q, c.window, draft);
        assert(r.nodes.take(c.plan.nodes.len() as int) =~= p.nodes.take(c.plan.nodes.len() as int));
        assert forall|i: int| 0 <= i < n implies #[trigger] is_try(
            e,
            c,
            operation,
            arrival_ms,
            summary_tokens,
            effects[i],
            r.nodes,
            list,
            i,
        ) by {
            if i < n - 1 {
                assert(is_try(e, c, operation, arrival_ms, summary_tokens, effects[i], p.nodes, before, i));
                assert(list[i] == before[i]);
                assert(r.nodes[before[i] as int] == p.nodes[before[i] as int]);
            } else if n > 1 {
                assert(is_try(e, c, operation, arrival_ms, summary_tokens, effects[i - 1], p.nodes, before, i - 1));
                assert(before.last() == before[i - 1]);
            }
        }
    } else {
        assert(c.plan.nodes.take(c.plan.nodes.len() as int) =~= c.plan.nodes);
    }
}

/// Attempt `i`, counted from zero, at a compaction: the next node after the one before it, with the
/// whole context. The first one waits for what the session waits for, each other one for the one
/// before it alone. Only the one that applies answers, with the summary.
pub open spec fn is_try(
    e: ResolvedGeneratorConfig,
    c: Course,
    operation: Seq<char>,
    arrival_ms: Option<u64>,
    summary_tokens: u64,
    effect: CompactionExpectedEffect,
    nodes: Seq<NodeView>,
    list: Seq<usize>,
    i: int,
) -> bool {
    let node = nodes[list[i] as int];
    let attempt = node.compaction_attempt->0;
    &&& list[i] == c.plan.nodes.len() + i
    &&& list[i] < nodes.len()
    &&& node.compaction_attempt is Some
    &&& attempt.operation_id == operation
    &&& attempt.attempt == i + 1
    &&& attempt.expected_effect == effect
    &&& effect == CompactionExpectedEffect::NoMutationAborted ==> attempt.abort_after_ms is Some && is_possible(
        e.compaction_abort_after_ms,
        attempt.abort_after_ms->0,
    )
    &&& effect != CompactionExpectedEffect::NoMutationAborted ==> attempt.abort_after_ms is None
    &&& node.request.input_sequence_hashes == c.window.blocks
    &&& node.request.output_tokens == if effect == CompactionExpectedEffect::ApplyOnce {
        summary_tokens
    } else {
        0
    }
    &&& node.output_budget_tokens is None
    &&& node.window_epoch == c.window.epoch
    &&& node.action == "compaction_attempt"@
    &&& node.request.agent_context->0.session_id == c.window.session_id
    &&& node.request.agent_context->0.input_trigger == Some("other"@)
    &&& i == 0 ==> {
        &&& node.dependencies == c.dependencies
        &&& node.delay_after_dependencies_ms == c.delay_ms
        &&& node.initial_arrival_ms == arrival_ms
    }
    &&& i > 0 ==> {
        &&& node.dependencies == seq![list[i - 1]]
        &&& node.delay_after_dependencies_ms == 0
        &&& node.initial_arrival_ms is None
    }
}

/// A compaction is made of attempts in a row, and noted as one operation that applies once.
pub proof fn law_attempts_run_in_a_row(
    d: Draws,
    e: ResolvedGeneratorConfig,
    c: Course,
    turn: nat,
    arrival_ms: Option<u64>,
    summary_tokens: u64,
)
    requires
        has_values(e.compaction_abort_after_ms),
        operated(d, e, c, turn, arrival_ms, summary_tokens) is Ok,
    ensures
        ({
            let (list, q) = operated(d, e, c, turn, arrival_ms, summary_tokens)->Ok_0;
            let operation = q.operations.last();
            &&& 1 <= list.len() <= 3
            &&& list.len() <= e.compaction_max_attempts
            &&& q.nodes.len() == c.plan.nodes.len() + list.len()
            &&& q.nodes.take(c.plan.nodes.len() as int) == c.plan.nodes
            &&& q.sessions == c.plan.sessions
            &&& q.operations.len() == c.plan.operations.len() + 1
            &&& q.operations.take(c.plan.operations.len() as int) == c.plan.operations
            &&& operation.session_id == c.window.session_id
            &&& operation.attempts == list
            &&& operation.expected_apply_count == 1
            &&& 1 <= operation.applied_attempt <= list.len()
            &&& forall|i: int|
                0 <= i < list.len() ==> {
                    let effect = q.nodes[(#[trigger] list[i]) as int].compaction_attempt->0.expected_effect;
                    &&& is_try(
                        e,
                        c,
                        operation.operation_id,
                        arrival_ms,
                        summary_tokens,
                        effect,
                        q.nodes,
                        list,
                        i,
                    )
                    &&& effect == CompactionExpectedEffect::ApplyOnce <==> i + 1 == operation.applied_attempt
                    &&& effect == CompactionExpectedEffect::NoMutationAborted <==> i + 1 < operation.applied_attempt
                    &&& effect == CompactionExpectedEffect::DuplicateNoop <==> i + 1 > operation.applied_attempt
                }
        }),
{
    reveal(operated);
    let limit = crate::scenario::outline::attempt_limit(e, c.plan);
    let (aborts, p) = if limit >= 2 {
        take_chance(d, c.plan, e.compaction_abort_probability)
    } else {
        (false, c.plan)
    };
    let (duplicates, q) = if attempt_effects(aborts, false).len() < limit {
        take_chance(d, p, e.compaction_retry_probability)
    } else {
        (false, p)
    };
    law_one_attempt_applies(aborts, duplicates);
    law_one_attempt_applies(aborts, false);
    let effects = attempt_effects(aborts, duplicates);
    let operation = crate::scenario::outline::operation_name(e, c.window, turn);
    let c2 = Course { plan: q, ..c };
    lemma_attempts(d, e, c2, operation, arrival_ms, summary_tokens, effects, effects.len());
    let (list, r) = operated(d, e, c, turn, arrival_ms, summary_tokens)->Ok_0;
    assert(r.operations.take(c.plan.operations.len() as int) =~= c.plan.operations);
    assert(r.operations.last().operation_id == operation);
    assert forall|i: int| 0 <= i < list.len() implies {
        let effect = r.nodes[(#[trigger] list[i]) as int].compaction_attempt->0.expected_effect;
        &&& is_try(e, c, operation, arrival_ms, summary_tokens, effect, r.nodes, list, i)
        &&& effect == CompactionExpectedEffect::ApplyOnce <==> i + 1 == r.operations.last().applied_attempt
        &&& effect == CompactionExpectedEffect::NoMutationAborted <==> i + 1 < r.operations.last().applied_attempt
        &&& effect == CompactionExpectedEffect::DuplicateNoop <==> i + 1 > r.operations.last().applied_attempt
    } by {
        assert(is_try(e, c2, operation, arrival_ms, summary_tokens, effects[i], r.nodes, list, i));
        assert(is_try(e, c, operation, arrival_ms, summary_tokens, effects[i], r.nodes, list, i));
    }
}

/// A context that is compacted keeps its stable blocks, then holds a summary, and then its most recent
/// blocks: as many as hold the tokens to retain, or all behind the stable ones where those are fewer.
/// The next epoch begins.
pub proof fn law_compaction_keeps_the_recent_blocks(
    e: ResolvedGeneratorConfig,
    p: Plan,
    w: Window,
    turn: nat,
    summary_tokens: u64,
    kept: int,
)
    requires
        e.block_size > 0,
        w.stable_blocks <= w.blocks.len(),
        w.epoch < usize::MAX,
        compacted(e, p, w, turn, summary_tokens) is Ok,
        just_hold(kept, e.block_size as int, e.retained_recent_tokens as int) && kept <= w.blocks.len()
            - w.stable_blocks || kept == w.blocks.len() - w.stable_blocks && kept * e.block_size
            <= e.retained_recent_tokens,
    ensures
        ({
            let (after, q) = compacted(e, p, w, turn, summary_tokens)->Ok_0;
            let summary = after.blocks.len() - w.stable_blocks - kept;
            &&& just_hold(summary, e.block_size as int, summary_tokens as int)
            &&& after.blocks.take(w.stable_blocks as int) == w.blocks.take(w.stable_blocks as int)
            &&& after.blocks.skip(after.blocks.len() - kept) == w.blocks.skip(w.blocks.len() - kept)
            &&& after.stable_blocks == w.stable_blocks
            &&& after.epoch == w.epoch + 1
            &&& after.session_id == w.session_id
            &&& after.parent_session_id == w.parent_session_id
            &&& q.nodes == p.nodes
        }),
{
    let wanted = ceil_div(e.retained_recent_tokens as nat, e.block_size as nat) as int;
    law_rounding_up_just_holds(e.retained_recent_tokens as nat, e.block_size as nat);
    let history = w.blocks.len() - w.stable_blocks;
    let b = e.block_size as int;
    let t = e.retained_recent_tokens as int;
    let actual = if wanted < history {
        wanted
    } else {
        history
    };
    assert(actual == kept) by {
        if just_hold(kept, b, t) && kept <= history {
            lemma_just_hold_unique(kept, wanted, b, t);
        } else {
            if wanted < history {
                assert(wanted * b < history * b) by (nonlinear_arith)
                    requires
                        wanted < history,
                        b > 0,
                ;
            }
        }
    }
    let scope = crate::scenario::outline::part_scope(w.session_id, ":summary:"@, turn);
    lemma_segment(e, p, scope, summary_tokens);
    let after = compacted(e, p, w, turn, summary_tokens)->Ok_0.0;
    assert(after.blocks.take(w.stable_blocks as int) =~= w.blocks.take(w.stable_blocks as int));
    assert(after.blocks.skip(after.blocks.len() - kept) =~= w.blocks.skip(w.blocks.len() - kept));
}

proof fn lemma_just_hold_unique(x: int, y: int, b: int, t: int)
    requires
        b > 0,
        t >= 0,
        just_hold(x, b, t),
        just_hold(y, b, t),
    ensures
        x == y,
{
    if x < y {
        assert(x * b <= (y - 1) * b) by (nonlinear_arith)
            requires
                x <= y - 1,
                b > 0,
        ;
    }
    if y < x {
        assert(y * b <= (x - 1) * b) by (nonlinear_arith)
            requires
                y <= x - 1,
                b > 0,
        ;
    }
}

/// Before a turn nothing happens where compaction is not due. Where it is, attempts hold the context
/// with the compaction prompt behind it, the prompt itself is forgotten, and the session goes on from
/// the last attempt at once.
pub proof fn law_compaction_comes_before_the_turn(d: Draws, e: Env, c: Course, turn: nat, arrival_ms: Option<u64>)
    requires
        e.config.block_size > 0,
        has_values(e.config.compaction_abort_after_ms),
        has_values(e.config.summary_input_tokens),
        has_values(e.config.summary_output_tokens),
        c.window.stable_blocks <= c.window.blocks.len(),
        c.window.epoch < usize::MAX,
        maybe_compacted(d, e, c, turn, arrival_ms) is Ok,
    ensures
        ({
            let after = maybe_compacted(d, e, c, turn, arrival_ms)->Ok_0;
            let due = e.config.compaction_enabled && c.window.blocks.len() * e.config.block_size
                >= e.tables.compaction_trigger_tokens;
            let first = after.plan.nodes[c.plan.nodes.len() as int];
            let prompt_tokens = sampled(e.config.summary_input_tokens, d, c.plan.asked).0;
            &&& !due ==> after == c
            &&& due ==> {
                &&& after.plan.nodes.len() > c.plan.nodes.len()
                &&& after.plan.nodes.take(c.plan.nodes.len() as int) == c.plan.nodes
                &&& after.plan.operations.len() == c.plan.operations.len() + 1
                &&& after.plan.sessions == c.plan.sessions
                &&& first.dependencies == c.dependencies
                &&& first.delay_after_dependencies_ms == c.delay_ms
                &&& first.initial_arrival_ms == if c.latest is None {
                    arrival_ms
                } else {
                    None
                }
                &&& first.compaction_attempt is Some
                &&& is_possible(e.config.summary_input_tokens, prompt_tokens)
                &&& extended(
                    e.config,
                    c.window.blocks,
                    first.request.input_sequence_hashes,
                    prompt_tokens as int,
                )
                &&& first.request.agent_context->0.session_id == c.window.session_id
                &&& after.dependencies == seq![(after.plan.nodes.len() - 1) as usize]
                &&& after.latest == Some((after.plan.nodes.len() - 1) as usize)
                &&& after.delay_ms == 0
                &&& after.trigger == "other"@
                &&& after.window.epoch == c.window.epoch + 1
                &&& after.window.stable_blocks == c.window.stable_blocks
                &&& after.window.session_id == c.window.session_id
                &&& after.window.parent_session_id == c.window.parent_session_id
                &&& after.window.blocks.take(c.window.stable_blocks as int) == c.window.blocks.take(
                    c.window.stable_blocks as int,
                )
            }
        }),
{
    reveal(maybe_compacted);
    if compaction_due(e, c.window) {
        let after = maybe_compacted(d, e, c, turn, arrival_ms)->Ok_0;
        let (prompt_tokens, p) = take(d, c.plan, e.config.summary_input_tokens);
        law_samples_are_possible(d, c.plan, e.config.summary_input_tokens);
        let scope = crate::scenario::outline::part_scope(c.window.session_id, ":compaction-prompt:"@, turn);
        lemma_segment(e.config, p, scope, prompt_tokens);
        let (prompt, q) = segment(e.config, p, scope, prompt_tokens)->Ok_0;
        let (summary_tokens, r) = take(d, q, e.config.summary_output_tokens);
        law_samples_are_possible(d, q, e.config.summary_output_tokens);
        let prompted = Window { blocks: c.window.blocks + prompt, ..c.window };
        let c2 = Course { plan: r, window: prompted, ..c };
        let arrival = if c.latest is None {
            arrival_ms
        } else {
            None
        };
        law_attempts_run_in_a_row(d, e.config, c2, turn, arrival, summary_tokens);
        let (list, s) = operated(d, e.config, c2, turn, arrival, summary_tokens)->Ok_0;
        let n = list.len() - 1;
        assert(list[0] == r.nodes.len());
        assert(list[n] == r.nodes.len() + n);
        let summary = crate::scenario::outline::part_scope(c.window.session_id, ":summary:"@, turn);
        lemma_segment(e.config, s, summary, summary_tokens);
        assert(prompted.blocks.take(c.window.blocks.len() as int) =~= c.window.blocks);
        assert(after.window.blocks.take(c.window.stable_blocks as int) =~= c.window.blocks.take(
            c.window.stable_blocks as int,
        ));
    }
}

// ---------------------------------------------------------------------------------------------
// Sessions
// ---------------------------------------------------------------------------------------------

/// A session opens with the blocks that all sessions share, those of its repository and its
/// environment, which stay, and a first user message.
pub proof fn law_sessions_open_with_their_context(
    d: Draws,
    e: Env,
    p: Plan,
    place: Place,
    parent: Option<Seq<char>>,
    dependencies: Seq<usize>,
    delay_ms: u64,
)
    requires
        e.config.block_size > 0,
        has_values(e.config.repository_tokens),
        has_values(e.config.session_tokens),
        has_values(e.config.user_tokens),
        opened(d, e, p, place, parent, dependencies, delay_ms) is Ok,
    ensures
        ({
            let after = opened(d, e, p, place, parent, dependencies, delay_ms)->Ok_0;
            let entry = after.plan.sessions.last();
            &&& after.plan.sessions.len() == p.sessions.len() + 1
            &&& after.plan.sessions.take(p.sessions.len() as int) == p.sessions
            &&& after.plan.nodes == p.nodes
            &&& after.plan.operations == p.operations
            &&& after.plan.prefix == p.prefix
            &&& entry.session_id == session_name(e.config, p.sessions.len())
            &&& entry.parent_session_id == parent
            &&& entry.depth == place.depth
            &&& entry.top_level_session_index == place.top_level_session_index
            &&& entry.top_level_stream_slot == place.top_level_stream_slot
            &&& after.window.session_id == entry.session_id
            &&& after.window.parent_session_id == parent
            &&& after.window.epoch == 0
            &&& p.prefix.is_prefix_of(after.window.blocks)
            &&& p.prefix.len() <= after.window.stable_blocks <= after.window.blocks.len()
            &&& exists|repository: u64, environment: u64, user: u64| #[trigger]
                opens_with(e, p, after.window, repository, environment, user)
            &&& after.dependencies == dependencies
            &&& after.delay_ms == delay_ms
            &&& after.trigger == "user_message"@
            &&& after.latest is None
        }),
{
    reveal(opened);
    let after = opened(d, e, p, place, parent, dependencies, delay_ms)->Ok_0;
    let name = session_name(e.config, p.sessions.len());
    let entered = Plan {
        sessions: p.sessions.push(
            crate::scenario::model::SessionView {
                session_id: name,
                parent_session_id: parent,
                depth: place.depth,
                top_level_session_index: place.top_level_session_index,
                top_level_stream_slot: place.top_level_stream_slot,
            },
        ),
        ..p
    };
    let (repository_tokens, p1) = take(d, entered, e.config.repository_tokens);
    law_samples_are_possible(d, entered, e.config.repository_tokens);
    let (session_tokens, p2) = take(d, p1, e.config.session_tokens);
    law_samples_are_possible(d, p1, e.config.session_tokens);
    let bare = Window {
        session_id: name,
        parent_session_id: parent,
        blocks: p.prefix,
        stable_blocks: 0,
        epoch: 0,
    };
    let repository = "root:"@ + crate::text::decimal(place.top_level_session_index as nat) + ":repository"@;
    lemma_appended(e.config, p2, bare, repository, repository_tokens);
    let (w3, p3) = appended(e.config, p2, bare, repository, repository_tokens)->Ok_0;
    let scope = "session:"@ + name + ":environment"@;
    lemma_appended(e.config, p3, w3, scope, session_tokens);
    let (w4, p4) = appended(e.config, p3, w3, scope, session_tokens)->Ok_0;
    let stable = Window { stable_blocks: w4.blocks.len(), ..w4 };
    let (user_tokens, p5) = take(d, p4, e.config.user_tokens);
    law_samples_are_possible(d, p4, e.config.user_tokens);
    let user = crate::scenario::outline::part_scope(name, ":user:"@, 0);
    lemma_appended(e.config, p5, stable, user, user_tokens);
    assert(after.plan.sessions.take(p.sessions.len() as int) =~= p.sessions);
    assert(p.prefix =~= after.window.blocks.take(p.prefix.len() as int));
    assert(after.window.blocks.len() - after.window.stable_blocks == after.window.blocks.len() - w4.blocks.len());
    assert(opens_with(e, p, after.window, repository_tokens, session_tokens, user_tokens));
}

/// Behind the shared blocks a context holds a repository and an environment of so many tokens, which
/// stay, and a user message.
pub open spec fn opens_with(e: Env, p: Plan, w: Window, repository: u64, environment: u64, user: u64) -> bool {
    &&& is_possible(e.config.repository_tokens, repository)
    &&& is_possible(e.config.session_tokens, environment)
    &&& is_possible(e.config.user_tokens, user)
    &&& just_hold(w.blocks.len() - w.stable_blocks, e.config.block_size as int, user as int)
    &&& exists|middle: int|
        p.prefix.len() <= middle <= w.stable_blocks && #[trigger] just_hold(
            middle - p.prefix.len(),
            e.config.block_size as int,
            repository as int,
        ) && just_hold(w.stable_blocks - middle, e.config.block_size as int, environment as int)
}

/// A plan starts with the blocks of the system prompt and of the tool catalog, and nothing else.
pub proof fn law_plans_start_with_the_shared_blocks(d: Draws, e: ResolvedGeneratorConfig)
    requires
        e.block_size > 0,
        has_values(e.system_prefix_tokens),
        has_values(e.tool_catalog_tokens),
        started(d, e) is Ok,
    ensures
        ({
            let p = started(d, e)->Ok_0;
            &&& p.nodes.len() == 0
            &&& p.sessions.len() == 0
            &&& p.operations.len() == 0
            &&& p.total_input_tokens == 0
            &&& exists|system: u64, tools: u64, middle: int|
                {
                    &&& is_possible(e.system_prefix_tokens, system)
                    &&& is_possible(e.tool_catalog_tokens, tools)
                    &&& #[trigger] just_hold(middle, e.block_size as int, system as int)
                    &&& #[trigger] just_hold(p.prefix.len() - middle, e.block_size as int, tools as int)
                }
        }),
{
    let blank = crate::scenario::outline::blank_plan();
    let (system_tokens, p) = take(d, blank, e.system_prefix_tokens);
    law_samples_are_possible(d, blank, e.system_prefix_tokens);
    let (tool_tokens, q) = take(d, p, e.tool_catalog_tokens);
    law_samples_are_possible(d, p, e.tool_catalog_tokens);
    lemma_segment(e, q, "shared:system"@, system_tokens);
    let (system, r) = segment(e, q, "shared:system"@, system_tokens)->Ok_0;
    lemma_segment(e, r, "shared:tools"@, tool_tokens);
    let tools = segment(e, r, "shared:tools"@, tool_tokens)->Ok_0.0;
    let whole = started(d, e)->Ok_0.prefix;
    assert(whole.len() - system.len() == tools.len());
    assert(just_hold(whole.len() - system.len(), e.block_size as int, tool_tokens as int));
}

/// A session is left out exactly where a limit is reached, and then nothing changes.
pub proof fn law_limits_leave_sessions_out(
    d: Draws,
    e: Env,
    p: Plan,
    place: Place,
    parent: Option<Seq<char>>,
    dependencies: Seq<usize>,
    delay_ms: u64,
)
    requires
        session(d, e, p, place, parent, dependencies, delay_ms) is Ok,
    ensures
        session(d, e, p, place, parent, dependencies, delay_ms)->Ok_0.0 is None <==> p.sessions.len()
            >= e.config.max_sessions || p.nodes.len() >= e.config.max_nodes,
        session(d, e, p, place, parent, dependencies, delay_ms)->Ok_0.0 is None ==> session(
            d,
            e,
            p,
            place,
            parent,
            dependencies,
            delay_ms,
        )->Ok_0.1 == p,
{
    lemma_session_unfold(d, e, p, place, parent, dependencies, delay_ms);
}

/// A request is accepted exactly where there is room for its node and its tokens, it arrives by itself
/// just where it waits for nothing, it waits for nodes before it, and its lengths fit.
pub proof fn law_requests_are_accepted_while_they_fit(
    e: ResolvedGeneratorConfig,
    p: Plan,
    w: Window,
    draft: Draft,
)
    ensures
        requested(e, p, w, draft) is Ok <==> {
            let input = w.blocks.len() * e.block_size;
            &&& p.nodes.len() < e.max_nodes
            &&& draft.arrival_ms is Some <==> draft.dependencies.len() == 0
            &&& forall|k: int| 0 <= k < draft.dependencies.len() ==> #[trigger] draft.dependencies[k] < p.nodes.len()
            &&& input <= usize::MAX
            &&& p.total_input_tokens + input <= u64::MAX
            &&& p.total_input_tokens + input <= e.max_total_input_tokens
            &&& draft.output_tokens <= u32::MAX
            &&& draft.budget_tokens is Some ==> draft.budget_tokens->0 <= u32::MAX
            &&& draft.attempt is None ==> draft.output_tokens > 0
        },
{
}

/// A session runs as many turns as are sampled for it: a top-level session those of its own, and a child
/// those of a subagent; and it ends with the request that its last turn left.
pub proof fn law_sessions_run_their_own_turns(
    d: Draws,
    e: Env,
    p: Plan,
    place: Place,
    parent: Option<Seq<char>>,
    dependencies: Seq<usize>,
    delay_ms: u64,
)
    requires
        session(d, e, p, place, parent, dependencies, delay_ms) matches Ok((Some(_), _)),
    ensures
        ({
            let (last, after) = session(d, e, p, place, parent, dependencies, delay_ms)->Ok_0;
            let c = opened(d, e, p, place, parent, dependencies, delay_ms)->Ok_0;
            let (own, own_plan) = take(d, c.plan, e.config.turns);
            let (child, child_plan) = take(d, c.plan, e.config.subagent_turns);
            let own_end = turns_from(d, e, Course { plan: own_plan, ..c }, place, 0, own as nat);
            let child_end = turns_from(d, e, Course { plan: child_plan, ..c }, place, 0, child as nat);
            &&& p.sessions.len() < e.config.max_sessions
            &&& p.nodes.len() < e.config.max_nodes
            &&& place.depth == 0 ==> own_end is Ok && own_end->Ok_0.latest == last && own_end->Ok_0.plan == after
            &&& place.depth > 0 ==> child_end is Ok && child_end->Ok_0.latest == last && child_end->Ok_0.plan
                == after
        }),
{
    lemma_session_unfold(d, e, p, place, parent, dependencies, delay_ms);
}

/// Turns run one after the other, until one of them completes the session, none is left, or there is no
/// room for another request.
pub proof fn law_turns_run_until_one_completes(
    d: Draws,
    e: Env,
    c: Course,
    place: Place,
    turn: nat,
    turns: nat,
)
    ensures
        ({
            let end = turns_from(d, e, c, place, turn, turns);
            let next = one_turn(d, e, c, place, turn, turns);
            let over = turn >= turns || c.plan.nodes.len() >= e.config.max_nodes;
            &&& turn >= turns ==> end is Ok && end->Ok_0 == c
            &&& c.plan.nodes.len() >= e.config.max_nodes ==> end is Ok && end->Ok_0 == c
            &&& !over && end is Ok ==> next is Ok
            &&& !over && next is Ok ==> {
                let (after, complete) = next->Ok_0;
                &&& complete ==> end is Ok && end->Ok_0 == after
                &&& !complete ==> end == turns_from(d, e, after, place, turn + 1, turns)
            }
        }),
{
    lemma_turns_from_unfold(d, e, c, place, turn, turns);
}

/// The shared blocks are those of the system prompt, and then those of the tool catalog.
pub proof fn law_the_system_prompt_comes_first(d: Draws, e: ResolvedGeneratorConfig)
    requires
        started(d, e) is Ok,
    ensures
        ({
            let (system_tokens, p) = take(d, crate::scenario::outline::blank_plan(), e.system_prefix_tokens);
            let (tool_tokens, q) = take(d, p, e.tool_catalog_tokens);
            let system = segment(e, q, "shared:system"@, system_tokens);
            let tools = segment(e, system->Ok_0.1, "shared:tools"@, tool_tokens);
            let prefix = started(d, e)->Ok_0.prefix;
            &&& system is Ok
            &&& tools is Ok
            &&& prefix.len() == system->Ok_0.0.len() + tools->Ok_0.0.len()
            &&& prefix.take(system->Ok_0.0.len() as int) == system->Ok_0.0
            &&& prefix.skip(system->Ok_0.0.len() as int) == tools->Ok_0.0
        }),
{
    let (system_tokens, p) = take(d, crate::scenario::outline::blank_plan(), e.system_prefix_tokens);
    let (tool_tokens, q) = take(d, p, e.tool_catalog_tokens);
    let system = segment(e, q, "shared:system"@, system_tokens);
    let tools = segment(e, system->Ok_0.1, "shared:tools"@, tool_tokens);
    let prefix = started(d, e)->Ok_0.prefix;
    assert(prefix.take(system->Ok_0.0.len() as int) =~= system->Ok_0.0);
    assert(prefix.skip(system->Ok_0.0.len() as int) =~= tools->Ok_0.0);
}

/// A session may complete by chance from its second turn on, and its last turn completes it; its first
/// one does not where another follows.
pub proof fn law_sessions_may_complete_from_the_second_turn_on(
    d: Draws,
    e: Env,
    c: Course,
    turn: nat,
    turns: nat,
    depth: nat,
    arrival_ms: Option<u64>,
)
    requires
        answered(d, e, c, turn, turns, depth, arrival_ms) is Ok,
    ensures
        ({
            let action = answered(d, e, c, turn, turns, depth, arrival_ms)->Ok_0.2;
            let word = take_word(d, take(d, c.plan, e.config.output_tokens).1).0;
            &&& turn + 1 == turns ==> action == NextAction::Complete
            &&& turn == 0 && turns > 1 ==> action == action_for(e, word, depth, false)
            &&& 1 <= turn && turn + 1 < turns ==> action == action_for(e, word, depth, true)
        }),
{
    reveal(answered);
}

/// No label is given out twice.
pub open spec fn labels_differ(labels: Map<Seq<char>, u64>) -> bool {
    forall|a: Seq<char>, b: Seq<char>|
        #![trigger labels[a], labels[b]]
        labels.contains_key(a) && labels.contains_key(b) && labels[a] == labels[b] ==> a == b
}

proof fn lemma_first_free(labels: Map<Seq<char>, u64>, seed: u64, owner: Seq<char>, nonce: nat)
    requires
        nonce <= 0x1_0000_0000_0000_0000,
    ensures
        first_free(labels, seed, owner, nonce) matches Some(label) ==> forall|other: Seq<char>| #[trigger]
            labels.contains_key(other) ==> labels[other] != label,
    decreases 0x1_0000_0000_0000_0000 - nonce,
{
    if nonce <= u64::MAX {
        let tried = candidate(seed, owner, nonce as u64);
        if labels_in_use(labels).contains(tried) {
            lemma_first_free(labels, seed, owner, nonce + 1);
        } else {
            assert forall|other: Seq<char>| #[trigger] labels.contains_key(other) implies labels[other] != tried by {
                if labels[other] == tried {
                    assert(labels_in_use(labels).contains(tried));
                }
            }
        }
    }
}

/// A label stays with its owner, and no other owner ever gets it: so blocks are told apart by their
/// labels, and one owner always has the same.
pub proof fn law_labels_tell_owners_apart(e: ResolvedGeneratorConfig, p: Plan, owner: Seq<char>)
    requires
        labels_differ(p.labels),
        labelled(e, p, owner) is Ok,
    ensures
        ({
            let (label, q) = labelled(e, p, owner)->Ok_0;
            &&& q.labels.contains_pair(owner, label)
            &&& labels_differ(q.labels)
            &&& forall|other: Seq<char>| #[trigger]
                p.labels.contains_key(other) ==> q.labels.contains_pair(other, p.labels[other])
            &&& p.labels.contains_key(owner) ==> label == p.labels[owner] && q == p
        }),
{
    lemma_first_free(p.labels, e.seed, owner, 0);
}

/// The blocks of a part carry the labels of their owners, in order: the part, and the number of the
/// block in it.
pub proof fn law_blocks_carry_the_labels_of_their_part(
    e: ResolvedGeneratorConfig,
    p: Plan,
    scope: Seq<char>,
    n: nat,
    i: int,
)
    requires
        labels_differ(p.labels),
        labelled_blocks(e, p, scope, n) is Ok,
        0 <= i < n,
    ensures
        ({
            let (blocks, q) = labelled_blocks(e, p, scope, n)->Ok_0;
            &&& blocks.len() == n
            &&& labels_differ(q.labels)
            &&& q.labels.contains_pair(scope + ":block:"@ + crate::text::decimal(i as nat), blocks[i])
        }),
    decreases n,
{
    lemma_labelled_blocks(e, p, scope, n, i);
}

proof fn lemma_labelled_blocks(e: ResolvedGeneratorConfig, p: Plan, scope: Seq<char>, n: nat, i: int)
    requires
        labels_differ(p.labels),
        labelled_blocks(e, p, scope, n) is Ok,
    ensures
        labelled_blocks(e, p, scope, n)->Ok_0.0.len() == n,
        labels_differ(labelled_blocks(e, p, scope, n)->Ok_0.1.labels),
        0 <= i < n ==> labelled_blocks(e, p, scope, n)->Ok_0.1.labels.contains_pair(
            scope + ":block:"@ + crate::text::decimal(i as nat),
            labelled_blocks(e, p, scope, n)->Ok_0.0[i],
        ),
    decreases n,
{
    if n > 0 {
        lemma_labelled_blocks(e, p, scope, (n - 1) as nat, i);
        let (blocks, q) = labelled_blocks(e, p, scope, (n - 1) as nat)->Ok_0;
        let owner = scope + ":block:"@ + crate::text::decimal((n - 1) as nat);
        law_labels_tell_owners_apart(e, q, owner);
        if 0 <= i < n - 1 {
            assert(q.labels.contains_key(scope + ":block:"@ + crate::text::decimal(i as nat)));
        }
    }
}

proof fn lemma_cut_at_colon(a: Seq<char>, x: Seq<char>, b: Seq<char>, y: Seq<char>)
    requires
        a + ":"@ + x == b + ":"@ + y,
        forall|i: int| 0 <= i < a.len() ==> #[trigger] a[i] != ':',
        forall|i: int| 0 <= i < b.len() ==> #[trigger] b[i] != ':',
    ensures
        a == b,
        x == y,
{
    reveal_strlit(":");
    let left = a + ":"@ + x;
    let right = b + ":"@ + y;
    assert(left[a.len() as int] == ':');
    assert(right[b.len() as int] == ':');
    if a.len() < b.len() {
        assert(right[a.len() as int] == b[a.len() as int]);
    }
    if b.len() < a.len() {
        assert(left[b.len() as int] == a[b.len() as int]);
    }
    assert(a =~= left.take(a.len() as int));
    assert(b =~= right.take(b.len() as int));
    assert(x =~= left.skip(a.len() as int + 1));
    assert(y =~= right.skip(b.len() as int + 1));
}

proof fn lemma_numerals_hold_no_colon(value: nat)
    ensures
        forall|i: int| 0 <= i < crate::text::decimal(value).len() ==> #[trigger] crate::text::decimal(value)[i] != ':',
{
    crate::text::law_numerals_read_back(value);
}

/// Parts of a session that come at different turns have owners of their own, and so have the blocks of
/// one part: what a session writes at one turn is never taken for what it writes at another.
pub proof fn law_parts_have_owners_of_their_own(
    session_id: Seq<char>,
    part: Seq<char>,
    scope: Seq<char>,
    a: nat,
    b: nat,
)
    ensures
        part_scope(session_id, part, a) == part_scope(session_id, part, b) ==> a == b,
        block_owner(scope, a) == block_owner(scope, b) ==> a == b,
{
    let head = "session:"@ + session_id + part;
    let mid = scope + ":block:"@;
    assert(part_scope(session_id, part, a).skip(head.len() as int) =~= crate::text::decimal(a));
    assert(part_scope(session_id, part, b).skip(head.len() as int) =~= crate::text::decimal(b));
    assert(block_owner(scope, a).skip(mid.len() as int) =~= crate::text::decimal(a));
    assert(block_owner(scope, b).skip(mid.len() as int) =~= crate::text::decimal(b));
    if crate::text::decimal(a) == crate::text::decimal(b) {
        crate::text::law_decimals_differ(a, b);
    }
}

proof fn lemma_regroup(h: Seq<char>, a: Seq<char>, i: Seq<char>, c: Seq<char>, f: Seq<char>)
    ensures
        (h + a + ":"@ + i + ":"@ + c + ":"@ + f).skip(h.len() as int) == a + ":"@ + (i + ":"@ + (c + ":"@ + f)),
{
    let colon = ":"@;
    let tail = a + colon + (i + colon + (c + colon + f));
    assert(h + a + colon + i + colon + c + colon + f =~= h + tail);
    assert((h + tail).skip(h.len() as int) =~= tail);
}

/// Tool results of different turns, and of different calls of one turn, have owners of their own.
pub proof fn law_tool_results_have_owners_of_their_own(
    session_id: Seq<char>,
    turn: nat,
    index: nat,
    class: Seq<char>,
    failed: bool,
    other_turn: nat,
    other_index: nat,
    other_class: Seq<char>,
    other_failed: bool,
)
    requires
        tool_scope(session_id, turn, index, class, failed) == tool_scope(
            session_id,
            other_turn,
            other_index,
            other_class,
            other_failed,
        ),
    ensures
        turn == other_turn,
        index == other_index,
{
    let head = "session:"@ + session_id + ":tool:"@;
    let flag = if failed {
        "true"@
    } else {
        "false"@
    };
    let other_flag = if other_failed {
        "true"@
    } else {
        "false"@
    };
    let rest = class + ":"@ + flag;
    let other_rest = other_class + ":"@ + other_flag;
    let calls = crate::text::decimal(index) + ":"@ + rest;
    let other_calls = crate::text::decimal(other_index) + ":"@ + other_rest;
    lemma_regroup(head, crate::text::decimal(turn), crate::text::decimal(index), class, flag);
    lemma_regroup(head, crate::text::decimal(other_turn), crate::text::decimal(other_index), other_class, other_flag);
    lemma_numerals_hold_no_colon(turn);
    lemma_numerals_hold_no_colon(other_turn);
    lemma_numerals_hold_no_colon(index);
    lemma_numerals_hold_no_colon(other_index);
    lemma_cut_at_colon(crate::text::decimal(turn), calls, crate::text::decimal(other_turn), other_calls);
    lemma_cut_at_colon(crate::text::decimal(index), rest, crate::text::decimal(other_index), other_rest);
    crate::text::law_decimals_differ(turn, other_turn);
    crate::text::law_decimals_differ(index, other_index);
}

/// Sessions and requests of a plan go by names of their own.
pub proof fn law_names_are_given_once(
    e: ResolvedGeneratorConfig,
    a: nat,
    b: nat,
    p: Plan,
    q: Plan,
    w: Window,
    v: Window,
    draft: Draft,
    other: Draft,
)
    ensures
        session_name(e, a) == session_name(e, b) ==> a == b,
        drafted_node(e, p, w, draft).node_id == drafted_node(e, q, v, other).node_id ==> p.nodes.len()
            == q.nodes.len(),
        drafted_node(e, p, w, draft).request.source_request_id == drafted_node(
            e,
            q,
            v,
            other,
        ).request.source_request_id ==> p.nodes.len() == q.nodes.len(),
{
    let seed = crate::text::hexadecimal(e.seed as nat, 16);
    let head = "generated-"@ + seed + "-session-"@;
    assert(session_name(e, a).skip(head.len() as int) =~= crate::text::decimal(a));
    assert(session_name(e, b).skip(head.len() as int) =~= crate::text::decimal(b));
    if session_name(e, a) == session_name(e, b) {
        crate::text::law_decimals_differ(a, b);
    }
    let m = p.nodes.len();
    let n = q.nodes.len();
    let first = drafted_node(e, p, w, draft);
    let second = drafted_node(e, q, v, other);
    assert(first.node_id.skip("node-"@.len() as int) =~= crate::text::decimal(m));
    assert(second.node_id.skip("node-"@.len() as int) =~= crate::text::decimal(n));
    let start = "generated-"@ + seed + "-"@;
    assert(first.request.source_request_id.skip(start.len() as int) =~= crate::text::decimal(m));
    assert(second.request.source_request_id.skip(start.len() as int) =~= crate::text::decimal(n));
    if crate::text::decimal(m) == crate::text::decimal(n) {
        crate::text::law_decimals_differ(m, n);
    }
}

} // verus!
