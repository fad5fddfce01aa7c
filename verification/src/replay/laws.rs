//! What holds of every run of a lowered trace and of a generated plan.

use crate::replay::causal::{
    first_missing, graph_failure, graph_of, places_failure, start_failure, ScaledOffsets,
};
use crate::replay::workload::{CapturedWorkload, CausalWorkload, GeneratedWorkload};
use crate::scenario::laws::{law_plans_are_in_order, node_in_order};
use crate::scenario::model::node_views;
use crate::scenario::outline::{planned, Env};
use crate::scenario::source::Draws;
use crate::trace::agentic::{
    causal_edges, dependencies_of, edges_are_acyclic, edges_ranked_by, is_lowered, is_turn,
};
use crate::trace::dag::{as_ints, is_acyclic, ranked_by};
use crate::trace::load::LoadedTrace;
use vstd::prelude::*;

verus! {

/// A graph can be run to its end: what a request waits for is among the requests; it arrives by
/// itself exactly where it waits for nothing; and no chain of dependencies comes back to its start.
pub open spec fn can_run<W: CausalWorkload>(workload: W) -> bool {
    &&& graph_failure(workload, workload.count()) is None
    &&& forall|i: int|
        0 <= i < workload.count() ==> ((#[trigger] workload.waits_for(i)).len() == 0 <==> workload.arrival(i) is Some)
    &&& is_acyclic(graph_of(workload))
}

proof fn lemma_nothing_is_missing(dependencies: Seq<usize>, count: nat, n: nat)
    requires
        n <= dependencies.len(),
        forall|k: int| 0 <= k < n ==> (#[trigger] dependencies[k]) < count,
    ensures
        first_missing(dependencies, count, n) is None,
    decreases n,
{
    if n > 0 {
        lemma_nothing_is_missing(dependencies, count, (n - 1) as nat);
    }
}

proof fn lemma_graph_is_whole<W: CausalWorkload>(workload: W, n: nat)
    requires
        n <= workload.count(),
        forall|i: int, k: int|
            0 <= i < n && 0 <= k < workload.waits_for(i).len() ==> (#[trigger] workload.waits_for(i)[k])
                < workload.count(),
    ensures
        graph_failure(workload, n) is None,
    decreases n,
{
    if n > 0 {
        lemma_graph_is_whole(workload, (n - 1) as nat);
        let dependencies = workload.waits_for(n - 1);
        lemma_nothing_is_missing(dependencies, workload.count(), dependencies.len());
    }
}

/// A lowered trace can be run to its end.
pub proof fn law_lowered_traces_can_run(workload: CapturedWorkload, loaded: LoadedTrace)
    requires
        is_lowered(*workload.trace, loaded),
    ensures
        can_run(workload),
{
    let turns = workload.trace.turns@;
    let n = loaded.requests@.len();
    let edges = causal_edges(loaded.requests@, loaded.tools@)->Ok_0;
    assert forall|i: int| 0 <= i < n implies ((#[trigger] workload.waits_for(i)).len() == 0 <==> workload.arrival(
        i,
    ) is Some) by {
        assert(is_turn(turns[i], loaded.requests@, loaded.tools@, edges, i));
        assert(as_ints(turns[i].dependencies@).len() == turns[i].dependencies@.len());
    }
    assert forall|i: int, k: int| 0 <= i < n && 0 <= k < workload.waits_for(i).len() implies (
    #[trigger] workload.waits_for(i)[k]) < workload.count() by {
        assert(turns[i].dependencies@[k] < n);
    }
    lemma_graph_is_whole(workload, workload.count());
    assert(edges_are_acyclic(edges, n));
    let rank = choose|rank: spec_fn(int) -> nat| edges_ranked_by(edges, n, rank);
    let graph = graph_of(workload);
    assert forall|i: int, k: int| 0 <= i < graph.len() && 0 <= k < graph[i].len() implies rank(
        #[trigger] graph[i][k] as int,
    ) < rank(i) by {
        assert(is_turn(turns[i], loaded.requests@, loaded.tools@, edges, i));
        assert(as_ints(turns[i].dependencies@)[k] == turns[i].dependencies@[k]);
        assert(rank(dependencies_of(edges, i)[k]) < rank(i));
    }
    assert(ranked_by(graph, rank));
}

/// A generated plan can be run to its end.
pub proof fn law_generated_plans_can_run(workload: GeneratedWorkload, d: Draws, e: Env)
    requires
        planned(d, e) is Ok,
        workload.scenario.holds(planned(d, e)->Ok_0),
    ensures
        can_run(workload),
{
    let p = planned(d, e)->Ok_0;
    let nodes = workload.scenario.nodes@;
    law_plans_are_in_order(d, e);
    assert forall|i: int| 0 <= i < nodes.len() implies ((#[trigger] workload.waits_for(i)).len() == 0
        <==> workload.arrival(i) is Some) && forall|k: int|
        0 <= k < workload.waits_for(i).len() ==> (#[trigger] workload.waits_for(i)[k]) < i by {
        assert(node_views(nodes)[i] == nodes[i]@);
        assert(node_in_order(e.config, p, i));
    }
    lemma_graph_is_whole(workload, workload.count());
    let rank = |i: int| i as nat;
    let graph = graph_of(workload);
    assert forall|i: int, k: int| 0 <= i < graph.len() && 0 <= k < graph[i].len() implies rank(
        #[trigger] graph[i][k] as int,
    ) < rank(i) by {
        assert(workload.waits_for(i)[k] < i);
    }
    assert(ranked_by(graph, rank));
}

/// A graph that can be run does start, where the requests that wait for nothing can be prepared and
/// their arrivals fit the clock.
pub proof fn law_runs_start<W: CausalWorkload>(workload: W, offsets: ScaledOffsets)
    requires
        can_run(workload),
        forall|i: int|
            0 <= i < workload.count() && (#[trigger] workload.waits_for(i)).len() == 0 ==> workload.plan(i) is Ok
                && offsets.arrival_ns@[i] is Some,
    ensures
        start_failure(workload, offsets) is None,
{
    lemma_places_are_taken(workload, offsets, workload.count());
}

proof fn lemma_places_are_taken<W: CausalWorkload>(workload: W, offsets: ScaledOffsets, n: nat)
    requires
        can_run(workload),
        n <= workload.count(),
        forall|i: int|
            0 <= i < workload.count() && (#[trigger] workload.waits_for(i)).len() == 0 ==> workload.plan(i) is Ok
                && offsets.arrival_ns@[i] is Some,
    ensures
        places_failure(workload, offsets, n) is None,
    decreases n,
{
    if n > 0 {
        lemma_places_are_taken(workload, offsets, (n - 1) as nat);
        assert(workload.waits_for(n - 1).len() == 0 <==> workload.arrival(n - 1) is Some);
    }
}

} // verus!
