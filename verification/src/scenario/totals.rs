//! What the totals of a plan say of it.

use crate::contracts::TraceManifest;
use crate::fidelity::how_many;
use crate::scenario::generate::{
    is_plan_manifest, is_scenario, is_sealed, last_arrival, plan_hashes, plan_totals,
};
use crate::scenario::model::{GeneratedScenario, NodeView, ToolEventView};
use crate::scenario::outline::{Env, Plan};
use crate::scenario::tool_parallelism::{counted, longest_two, parallelism, work};
use crate::trace::selection::{added_up, shows_hash};
use vstd::prelude::*;

verus! {

proof fn lemma_totals(nodes: Seq<NodeView>, n: nat)
    requires
        n <= nodes.len(),
    ensures
        plan_totals(nodes, n) == (
            added_up(n, |i: int| nodes[i].request.input_tokens as nat),
            added_up(n, |i: int| nodes[i].request.output_tokens as nat),
        ),
    decreases n,
{
    if n > 0 {
        lemma_totals(nodes, (n - 1) as nat);
    }
}

proof fn lemma_plan_hashes(nodes: Seq<NodeView>, n: nat, h: u64)
    requires
        n <= nodes.len(),
    ensures
        plan_hashes(nodes, n).contains(h) <==> exists|i: int|
            0 <= i < n && shows_hash((#[trigger] nodes[i]).request.input_sequence_hashes, h),
    decreases n,
{
    if n > 0 {
        lemma_plan_hashes(nodes, (n - 1) as nat, h);
        let last = nodes[n - 1].request.input_sequence_hashes;
        if last.to_set().contains(h) {
            let k = last.index_of(h);
            assert(last[k] == h);
            assert(shows_hash(nodes[n - 1].request.input_sequence_hashes, h));
        }
        if exists|i: int| 0 <= i < n && shows_hash((#[trigger] nodes[i]).request.input_sequence_hashes, h) {
            let i = choose|i: int| 0 <= i < n && shows_hash((#[trigger] nodes[i]).request.input_sequence_hashes, h);
            if i == n - 1 {
                let k = choose|k: int| 0 <= k < last.len() && #[trigger] last[k] == h;
                assert(last.contains(h));
            }
        }
    }
}

proof fn lemma_last_arrival(nodes: Seq<NodeView>, n: nat)
    requires
        n <= nodes.len(),
    ensures
        forall|i: int|
            0 <= i < n && (#[trigger] nodes[i]).initial_arrival_ms is Some ==> nodes[i].initial_arrival_ms->0
                <= last_arrival(nodes, n),
        last_arrival(nodes, n) == 0 || exists|i: int|
            0 <= i < n && (#[trigger] nodes[i]).initial_arrival_ms == Some(last_arrival(nodes, n)),
    decreases n,
{
    if n > 0 {
        lemma_last_arrival(nodes, (n - 1) as nat);
        let before = last_arrival(nodes, (n - 1) as nat);
        if last_arrival(nodes, n) == before && before != 0 {
            let i = choose|i: int| 0 <= i < n - 1 && (#[trigger] nodes[i]).initial_arrival_ms == Some(before);
            assert(nodes[i].initial_arrival_ms == Some(last_arrival(nodes, n)));
        } else if last_arrival(nodes, n) != 0 {
            assert(nodes[n - 1].initial_arrival_ms == Some(last_arrival(nodes, n)));
        }
    }
}

/// The manifest of a plan counts its requests and sessions, adds up its tokens, counts its distinct
/// hashes, and lasts up to the last arrival.
pub proof fn law_manifests_describe_the_plan(
    manifest: TraceManifest,
    p: Plan,
    block_size: usize,
    digest: Seq<char>,
    hashes: Set<u64>,
)
    requires
        is_plan_manifest(manifest, p, block_size, digest),
        forall|h: u64| #[trigger]
            hashes.contains(h) <==> exists|i: int|
                0 <= i < p.nodes.len() && shows_hash((#[trigger] p.nodes[i]).request.input_sequence_hashes, h),
    ensures
        manifest.request_count == p.nodes.len(),
        manifest.session_count == p.sessions.len(),
        manifest.input_tokens == added_up(p.nodes.len(), |i: int| p.nodes[i].request.input_tokens as nat),
        manifest.output_tokens == added_up(p.nodes.len(), |i: int| p.nodes[i].request.output_tokens as nat),
        manifest.distinct_sequence_hashes == hashes.len(),
        manifest.trace_block_size == block_size,
        manifest.first_request_received_ms == 0,
        manifest.duration_ms == manifest.last_request_received_ms,
        forall|i: int|
            0 <= i < p.nodes.len() && (#[trigger] p.nodes[i]).initial_arrival_ms is Some
                ==> p.nodes[i].initial_arrival_ms->0 <= manifest.last_request_received_ms,
        manifest.last_request_received_ms == 0 || exists|i: int|
            0 <= i < p.nodes.len() && (#[trigger] p.nodes[i]).initial_arrival_ms == Some(
                manifest.last_request_received_ms,
            ),
{
    lemma_totals(p.nodes, p.nodes.len());
    lemma_last_arrival(p.nodes, p.nodes.len());
    assert forall|h: u64| plan_hashes(p.nodes, p.nodes.len()).contains(h) <==> #[trigger] hashes.contains(h) by {
        lemma_plan_hashes(p.nodes, p.nodes.len(), h);
    }
    assert(plan_hashes(p.nodes, p.nodes.len()) =~= hashes);
}

/// A scenario keeps its settings, tells how many sessions they ask for, and counts the rest as children.
pub proof fn law_scenarios_tell_their_topology(scenario: GeneratedScenario, p: Plan, e: Env, profile: Seq<u8>)
    requires
        is_scenario(scenario, p, e, profile),
        p.sessions.len() <= usize::MAX,
    ensures
        scenario.config == e.config,
        scenario.session_topology.configured_top_level_sessions == e.config.num_sessions,
        scenario.session_topology.configured_concurrent_sessions == e.config.concurrent_sessions,
        e.config.num_sessions <= p.sessions.len() ==> scenario.session_topology.generated_subagent_sessions
            + e.config.num_sessions == p.sessions.len(),
        scenario.sessions@.len() == p.sessions.len(),
        scenario.nodes@.len() == p.nodes.len(),
        scenario.compaction_operations@.len() == p.operations.len(),
{
    assert(crate::scenario::model::session_views(scenario.sessions@).len() == scenario.sessions@.len());
    assert(crate::scenario::model::node_views(scenario.nodes@).len() == scenario.nodes@.len());
    assert(crate::scenario::model::operation_views(scenario.compaction_operations@).len()
        == scenario.compaction_operations@.len());
}

/// Sealing a scenario changes nothing but its digest.
pub proof fn law_seals_change_the_digest_alone(
    sealed: GeneratedScenario,
    scenario: GeneratedScenario,
    bytes: Seq<u8>,
)
    requires
        is_sealed(sealed, scenario, bytes),
    ensures
        sealed.nodes == scenario.nodes,
        sealed.sessions == scenario.sessions,
        sealed.compaction_operations == scenario.compaction_operations,
        sealed.config == scenario.config,
        sealed.trace_manifest == scenario.trace_manifest,
        sealed.tool_parallelism == scenario.tool_parallelism,
        sealed.session_topology == scenario.session_topology,
        sealed.profile_digest_sha256 == scenario.profile_digest_sha256,
{
}

/// The longest call of a phase, and the longest of the others.
pub open spec fn are_longest(events: Seq<ToolEventView>, a: int, b: int) -> bool {
    &&& 0 <= a < events.len()
    &&& 0 <= b < events.len()
    &&& a != b
    &&& forall|k: int| 0 <= k < events.len() ==> (#[trigger] events[k]).latency_ms <= events[a].latency_ms
    &&& forall|k: int|
        0 <= k < events.len() && k != a ==> (#[trigger] events[k]).latency_ms <= events[b].latency_ms
}

proof fn lemma_longest(events: Seq<ToolEventView>, n: nat)
    requires
        n <= events.len(),
    ensures
        n == 1 ==> longest_two(events, n) == (events[0].latency_ms, 0u64),
        n >= 2 ==> exists|a: int, b: int| #[trigger]
            are_longest(events.take(n as int), a, b) && longest_two(events, n) == (
                events[a].latency_ms,
                events[b].latency_ms,
            ),
    decreases n,
{
    if n == 1 {
        reveal_with_fuel(longest_two, 2);
    } else if n >= 2 {
        lemma_longest(events, (n - 1) as nat);
        let last = n - 1;
        let part = events.take(n as int);
        if n == 2 {
            if events[1].latency_ms >= events[0].latency_ms {
                assert(are_longest(part, 1, 0));
            } else {
                assert(are_longest(part, 0, 1));
            }
        } else {
            let shorter = events.take(n - 1);
            let (a, b) = choose|a: int, b: int| #[trigger]
                are_longest(shorter, a, b) && longest_two(events, (n - 1) as nat) == (
                    events[a].latency_ms,
                    events[b].latency_ms,
                );
            assert forall|k: int| 0 <= k < n - 1 implies #[trigger] part[k] == shorter[k] by {}
            if events[last].latency_ms >= events[a].latency_ms {
                assert(are_longest(part, last, a));
            } else if events[last].latency_ms > events[b].latency_ms {
                assert(are_longest(part, a, last));
            } else {
                assert(are_longest(part, a, b));
            }
        }
    }
}

proof fn lemma_two_longest_are_fixed(events: Seq<ToolEventView>, a: int, b: int, c: int, d: int)
    requires
        are_longest(events, a, b),
        are_longest(events, c, d),
    ensures
        events[a].latency_ms == events[c].latency_ms,
        events[b].latency_ms == events[d].latency_ms,
{
    assert(events[a].latency_ms <= events[c].latency_ms);
    assert(events[c].latency_ms <= events[a].latency_ms);
    if d != a {
        assert(events[d].latency_ms <= events[b].latency_ms);
    } else {
        assert(c != a);
        assert(events[c].latency_ms <= events[b].latency_ms);
    }
    if b != c {
        assert(events[b].latency_ms <= events[d].latency_ms);
    } else {
        assert(events[a].latency_ms <= events[d].latency_ms);
    }
}

/// A tool phase adds its calls and all of its work, the wall time of its longest call, and, where its
/// calls run beside each other, the time that at least two of them do: that of the second longest.
pub proof fn law_phases_add_their_work_and_wall_time(
    before: crate::scenario::model::GeneratedToolParallelism,
    events: Seq<ToolEventView>,
    a: int,
    b: int,
)
    requires
        counted(before, events) is Ok,
        events.len() >= 1,
        before.tool_phases < usize::MAX,
        before.parallel_tool_phases < usize::MAX,
        before.parallel_tool_calls + events.len() <= usize::MAX,
        events.len() >= 2 ==> are_longest(events, a, b),
    ensures
        ({
            let after = counted(before, events)->Ok_0;
            &&& after.tool_phases == before.tool_phases + 1
            &&& after.tool_calls == before.tool_calls + events.len()
            &&& after.tool_work_ms == before.tool_work_ms + added_up(
                events.len(),
                |i: int| events[i].latency_ms as nat,
            )
            &&& events.len() == 1 ==> after.tool_wall_ms == before.tool_wall_ms + events[0].latency_ms
                && after.parallel_tool_phases == before.parallel_tool_phases && after.parallel_tool_calls
                == before.parallel_tool_calls && after.parallel_wall_ms == before.parallel_wall_ms
            &&& events.len() >= 2 ==> after.tool_wall_ms == before.tool_wall_ms + events[a].latency_ms
                && after.parallel_tool_phases == before.parallel_tool_phases + 1 && after.parallel_tool_calls
                == before.parallel_tool_calls + events.len() && after.parallel_wall_ms == before.parallel_wall_ms
                + events[b].latency_ms
        }),
{
    lemma_longest(events, events.len());
    lemma_work(events, events.len());
    if events.len() >= 2 {
        assert(events.take(events.len() as int) =~= events);
        let (c, d) = choose|c: int, d: int| #[trigger]
            are_longest(events.take(events.len() as int), c, d) && longest_two(events, events.len()) == (
                events[c].latency_ms,
                events[d].latency_ms,
            );
        lemma_two_longest_are_fixed(events, a, b, c, d);
    }
}

proof fn lemma_work(events: Seq<ToolEventView>, n: nat)
    requires
        n <= events.len(),
    ensures
        work(events, n) == added_up(n, |i: int| events[i].latency_ms as nat),
    decreases n,
{
    if n > 0 {
        lemma_work(events, (n - 1) as nat);
    }
}

/// The parallelism of a plan counts the nodes with tool calls, those with several, and all the calls.
pub proof fn law_parallelism_counts_tool_phases(nodes: Seq<NodeView>, n: nat)
    requires
        n <= nodes.len(),
        n <= usize::MAX,
        parallelism(nodes, n) is Ok,
    ensures
        ({
            let t = parallelism(nodes, n)->Ok_0;
            &&& t.tool_phases == how_many(n, |i: int| nodes[i].tool_events.len() > 0)
            &&& t.parallel_tool_phases == how_many(n, |i: int| nodes[i].tool_events.len() > 1)
            &&& t.tool_calls == added_up(n, |i: int| nodes[i].tool_events.len())
            &&& t.parallel_tool_calls <= t.tool_calls
            &&& t.tool_phases <= n
            &&& t.parallel_tool_phases <= n
        }),
    decreases n,
{
    if n > 0 {
        law_parallelism_counts_tool_phases(nodes, (n - 1) as nat);
    }
}

} // verus!
