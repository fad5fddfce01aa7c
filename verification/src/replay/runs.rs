//! What runs do: when requests become ready, what is sent, and in which order.

use crate::fidelity::how_many;
use crate::ordered::{is_sorted, Ranked};
use crate::replay::causal::{
    completion_failure, dispatched, due, flying, hands_out, handed_out, in_step, is_completion, is_done,
    is_released, is_step, landed, latest, law_latest_is_latest, newly_released, release_failure, release_list,
    start_failure, graph_failure, place_failure, places_failure, first_missing, first_status, CausalError,
    CausalStep, DueRequest, NodeStatus, ScaledOffsets,
};
use crate::replay::recorded::{
    due_count, earlier, is_preparation, next_preparation, next_wake, place, recorded_plan, PendingRequest,
    RecordedError, RecordedRun, RecordedView, ScheduledRequest,
};
use crate::replay::workload::{CapturedWorkload, CausalWorkload, GeneratedWorkload};
use vstd::prelude::*;

verus! {

// ---------------------------------------------------------------------------------------------
// Graphs
// ---------------------------------------------------------------------------------------------

/// Everything that request `i` waits for has completed.
pub open spec fn all_done<W: CausalWorkload>(workload: W, status: Seq<NodeStatus>, i: int) -> bool {
    forall|k: int| 0 <= k < workload.waits_for(i).len() ==> status[#[trigger] workload.waits_for(i)[k] as int] is Done
}

/// Dependency `k` of request `i` was the last to complete.
pub open spec fn completed_last<W: CausalWorkload>(workload: W, status: Seq<NodeStatus>, i: int, k: int) -> bool {
    &&& 0 <= k < workload.waits_for(i).len()
    &&& all_done(workload, status, i)
    &&& forall|l: int|
        0 <= l < workload.waits_for(i).len() ==> status[#[trigger] workload.waits_for(i)[l] as int]->Done_0
            <= status[workload.waits_for(i)[k] as int]->Done_0
}

/// A request that waits for nothing is due at its arrival; any other one, its own delay after the last
/// of what it waits for has completed.
pub proof fn law_requests_are_due_after_the_last<W: CausalWorkload>(
    workload: W,
    offsets: ScaledOffsets,
    status: Seq<NodeStatus>,
    i: int,
    k: int,
)
    requires
        0 <= i < status.len(),
        workload.waits_for(i).len() == 0 || completed_last(workload, status, i, k),
    ensures
        workload.waits_for(i).len() == 0 ==> due(workload, offsets, status, i) == offsets.arrival_ns@[i]->0,
        workload.waits_for(i).len() > 0 ==> due(workload, offsets, status, i)
            == status[workload.waits_for(i)[k] as int]->Done_0 + offsets.delay_ns@[i]->0,
{
    let dependencies = workload.waits_for(i);
    if dependencies.len() > 0 {
        assert forall|l: int| 0 <= l < dependencies.len() implies is_done(status, #[trigger] dependencies[l] as int) by {
            assert(status[workload.waits_for(i)[l] as int] is Done);
        }
        law_latest_is_latest(dependencies, status, dependencies.len());
        assert(status[dependencies[k] as int]->Done_0 <= latest(dependencies, status, dependencies.len()));
    }
}

/// Completing a request marks it with its time; queues exactly those that waited and now have
/// everything they wait for; changes nothing else; and names those it queued, lowest first.
pub proof fn law_completions_release_what_waited<W: CausalWorkload>(
    workload: W,
    offsets: ScaledOffsets,
    status: Seq<NodeStatus>,
    ordinal: usize,
    completed_ns: u64,
    result: Result<Vec<usize>, CausalError>,
    after: Seq<NodeStatus>,
)
    requires
        in_step(workload, offsets, status),
        status.len() <= usize::MAX,
        is_completion(workload, offsets, status, ordinal, completed_ns, result, after),
        result is Ok,
    ensures
        ordinal < status.len(),
        status[ordinal as int] is InFlight,
        after.len() == status.len(),
        after[ordinal as int] == NodeStatus::Done(completed_ns),
        forall|i: int| #![trigger after[i]]
            0 <= i < status.len() && i != ordinal ==> (if status[i] is Waiting && all_done(workload, after, i) {
                after[i] is Queued
            } else {
                after[i] == status[i]
            }),
        forall|i: int| #![trigger after[i]]
            0 <= i < status.len() && i != ordinal && after[i] != status[i] ==> workload.waits_for(i).contains(ordinal)
                && result->Ok_0@.contains(i as usize),
        forall|j: int, k: int|
            0 <= j < k < result->Ok_0@.len() ==> (#[trigger] result->Ok_0@[j]) < (#[trigger] result->Ok_0@[k]),
        forall|j: int|
            0 <= j < result->Ok_0@.len() ==> (#[trigger] result->Ok_0@[j]) < status.len()
                && status[result->Ok_0@[j] as int] is Waiting && after[result->Ok_0@[j] as int] is Queued,
{
    let base = status.update(ordinal as int, NodeStatus::Done(completed_ns));
    let released = result->Ok_0@;
    lemma_released(workload, base, status.len());
    assert forall|i: int| 0 <= i < status.len() implies (is_released(workload, base, i) <==> #[trigger] all_done(
        workload,
        after,
        i,
    )) by {
        let dependencies = workload.waits_for(i);
        assert forall|k: int| 0 <= k < dependencies.len() implies (is_done(base, #[trigger] dependencies[k] as int)
            <==> after[dependencies[k] as int] is Done) by {
            assert(workload.waits_for(i)[k] < status.len());
        }
        if is_released(workload, base, i) {
            assert forall|k: int| 0 <= k < dependencies.len() implies after[#[trigger] workload.waits_for(
                i,
            )[k] as int] is Done by {
                assert(is_done(base, dependencies[k] as int));
            }
        }
        if all_done(workload, after, i) {
            assert forall|k: int| 0 <= k < dependencies.len() implies is_done(
                base,
                #[trigger] dependencies[k] as int,
            ) by {
                assert(after[workload.waits_for(i)[k] as int] is Done);
            }
        }
    }
    assert forall|i: int| #![trigger after[i]]
        0 <= i < status.len() && i != ordinal && after[i] != status[i] implies workload.waits_for(i).contains(ordinal)
        && released.contains(i as usize) by {
        assert(newly_released(workload, base, i));
        if !workload.waits_for(i).contains(ordinal) {
            let dependencies = workload.waits_for(i);
            assert forall|k: int| 0 <= k < dependencies.len() implies is_done(
                status,
                #[trigger] dependencies[k] as int,
            ) by {
                assert(is_done(base, dependencies[k] as int));
            }
            assert(is_released(workload, status, i));
        }
    }
    assert forall|j: int| 0 <= j < released.len() implies (#[trigger] released[j]) < status.len()
        && status[released[j] as int] is Waiting && after[released[j] as int] is Queued by {
        assert(newly_released(workload, base, released[j] as int));
    }
}

proof fn lemma_released<W: CausalWorkload>(workload: W, status: Seq<NodeStatus>, n: nat)
    requires
        n <= usize::MAX,
    ensures
        ({
            let list = release_list(workload, status, n);
            &&& forall|j: int|
                0 <= j < list.len() ==> (#[trigger] list[j]) < n && newly_released(workload, status, list[j] as int)
            &&& forall|j: int, k: int| 0 <= j < k < list.len() ==> (#[trigger] list[j]) < (#[trigger] list[k])
            &&& forall|i: int| 0 <= i < n && #[trigger] newly_released(workload, status, i) ==> list.contains(i as usize)
        }),
    decreases n,
{
    if n > 0 {
        lemma_released(workload, status, (n - 1) as nat);
        let before = release_list(workload, status, (n - 1) as nat);
        let list = release_list(workload, status, n);
        assert forall|i: int| 0 <= i < n && #[trigger] newly_released(workload, status, i) implies list.contains(
            i as usize,
        ) by {
            if i == n - 1 {
                assert(list[list.len() - 1] == i as usize);
            } else {
                assert(before.contains(i as usize));
                let j = before.index_of(i as usize);
                assert(list[j] == i as usize);
            }
        }
    }
}

/// A completion fails exactly where some request that it releases has a delay outside the clock,
/// cannot be prepared, or would be due after the end of the clock.
pub proof fn law_completions_fail_where_a_release_does<W: CausalWorkload>(
    workload: W,
    offsets: ScaledOffsets,
    status: Seq<NodeStatus>,
    n: nat,
)
    ensures
        completion_failure(workload, offsets, status, n) is None <==> forall|i: int|
            0 <= i < n && #[trigger] newly_released(workload, status, i) ==> offsets.delay_ns@[i] is Some
                && workload.plan(i) is Ok && due(workload, offsets, status, i) <= u64::MAX,
    decreases n,
{
    if n > 0 {
        law_completions_fail_where_a_release_does(workload, offsets, status, (n - 1) as nat);
        if completion_failure(workload, offsets, status, n) is None {
            assert(completion_failure(workload, offsets, status, (n - 1) as nat) is None);
        }
        assert(release_failure(workload, offsets, status, n - 1) is None <==> offsets.delay_ns@[n - 1] is Some
            && workload.plan(n - 1) is Ok && due(workload, offsets, status, n - 1) <= u64::MAX);
    }
}

/// What is handed out at a time is what was queued and due by then, each with its own time and as it
/// is to be sent, earliest first, and of one time by its place; nothing else changes.
pub proof fn law_due_requests_leave_in_order<W: CausalWorkload>(
    workload: W,
    offsets: ScaledOffsets,
    status: Seq<NodeStatus>,
    now_ns: u64,
    requests: Seq<DueRequest>,
    i: int,
)
    requires
        is_sorted(requests),
        hands_out(workload, offsets, status, now_ns, requests),
        0 <= i < status.len(),
    ensures
        dispatched(workload, offsets, status, now_ns)[i] == (if status[i] is Queued && due(
            workload,
            offsets,
            status,
            i,
        ) <= now_ns {
            NodeStatus::InFlight
        } else {
            status[i]
        }),
        (exists|k: int| 0 <= k < requests.len() && (#[trigger] requests[k]).ordinal == i) <==> status[i] is Queued
            && due(workload, offsets, status, i) <= now_ns,
        forall|k: int|
            0 <= k < requests.len() ==> {
                let request = #[trigger] requests[k];
                &&& request.ready_at_ns == due(workload, offsets, status, request.ordinal as int)
                &&& request.ready_at_ns <= now_ns
                &&& workload.plan(request.ordinal as int) == Ok::<
                    crate::replay::request::PreparedView,
                    crate::token_shape::error::TokenError,
                >(request.request@)
            },
        forall|k: int, l: int|
            0 <= k < l < requests.len() ==> {
                let first = #[trigger] requests[k];
                let second = #[trigger] requests[l];
                ||| first.ready_at_ns < second.ready_at_ns
                ||| first.ready_at_ns == second.ready_at_ns && first.ordinal < second.ordinal
            },
{
    assert forall|k: int| 0 <= k < requests.len() implies {
        let request = #[trigger] requests[k];
        &&& request.ready_at_ns == due(workload, offsets, status, request.ordinal as int)
        &&& request.ready_at_ns <= now_ns
        &&& status[request.ordinal as int] is Queued
        &&& workload.plan(request.ordinal as int) == Ok::<
            crate::replay::request::PreparedView,
            crate::token_shape::error::TokenError,
        >(request.request@)
    } by {
        assert(handed_out(workload, offsets, status, now_ns, requests[k]));
    }
    assert forall|k: int, l: int| 0 <= k < l < requests.len() implies {
        let first = #[trigger] requests[k];
        let second = #[trigger] requests[l];
        ||| first.ready_at_ns < second.ready_at_ns
        ||| first.ready_at_ns == second.ready_at_ns && first.ordinal < second.ordinal
    } by {
        assert(requests[k].ranks_before(requests[l]));
        assert(requests[k].ordinal != requests[l].ordinal);
    }
}

/// The counts of a run count.
pub proof fn law_requests_are_counted(status: Seq<NodeStatus>, n: nat)
    ensures
        flying(status, n) == how_many(n, |i: int| status[i] is InFlight),
        landed(status, n) == how_many(n, |i: int| status[i] is Done),
    decreases n,
{
    if n > 0 {
        law_requests_are_counted(status, (n - 1) as nat);
    }
}

/// A run sleeps no longer than up to the first request that is due, waits for a completion only where
/// something is in flight, and ends only where nothing is queued or in flight.
pub proof fn law_steps_follow_the_queue<W: CausalWorkload>(
    workload: W,
    offsets: ScaledOffsets,
    status: Seq<NodeStatus>,
    now_ns: u64,
    step: CausalStep,
    i: int,
)
    requires
        is_step(workload, offsets, status, now_ns, step),
        0 <= i < status.len(),
    ensures
        step is Dispatch || !(status[i] is Queued) || due(workload, offsets, status, i) > now_ns,
        step is Finish ==> !(status[i] is Queued) && !(status[i] is InFlight),
        step is Complete ==> !(status[i] is Queued),
        step is Sleep ==> !(status[i] is InFlight) && (status[i] is Queued ==> step->Sleep_until_ns <= due(
            workload,
            offsets,
            status,
            i,
        )),
        step is SleepOrComplete ==> (status[i] is Queued ==> step->SleepOrComplete_until_ns <= due(
            workload,
            offsets,
            status,
            i,
        )),
        (step is Complete || step is SleepOrComplete) ==> how_many(status.len(), |j: int| status[j] is InFlight) > 0,
{
    law_requests_are_counted(status, status.len());
    if flying(status, status.len()) == 0 {
        lemma_none_flies(status, status.len(), i);
    }
}

proof fn lemma_none_flies(status: Seq<NodeStatus>, n: nat, i: int)
    requires
        flying(status, n) == 0,
        0 <= i < n,
    ensures
        !(status[i] is InFlight),
    decreases n,
{
    if i < n - 1 {
        lemma_none_flies(status, (n - 1) as nat, i);
    }
}

/// A run starts exactly where every dependency is one of its requests, each request has an arrival
/// where it waits for nothing and none where it waits, and what waits for nothing can be prepared and
/// fits the clock. What waits for nothing is queued then, and everything else waits.
pub proof fn law_runs_start_whole<W: CausalWorkload>(workload: W, offsets: ScaledOffsets)
    requires
        workload.count() <= usize::MAX,
    ensures
        start_failure(workload, offsets) is None <==> {
            &&& forall|i: int, k: int|
                0 <= i < workload.count() && 0 <= k < workload.waits_for(i).len() ==> (#[trigger] workload.waits_for(
                    i,
                )[k]) < workload.count()
            &&& forall|i: int|
                0 <= i < workload.count() ==> if (#[trigger] workload.waits_for(i)).len() > 0 {
                    workload.arrival(i) is None
                } else {
                    workload.arrival(i) is Some && workload.plan(i) is Ok && offsets.arrival_ns@[i] is Some
                }
        },
        forall|i: int|
            0 <= i < workload.count() ==> (#[trigger] first_status(workload, i) is Queued <==> workload.waits_for(
                i,
            ).len() == 0) && (first_status(workload, i) is Waiting <==> workload.waits_for(i).len() > 0),
{
    lemma_graph(workload, workload.count());
    lemma_places(workload, offsets, workload.count());
    assert forall|i: int| 0 <= i < workload.count() implies (#[trigger] place_failure(workload, offsets, i) is None
        <==> if workload.waits_for(i).len() > 0 {
        workload.arrival(i) is None
    } else {
        workload.arrival(i) is Some && workload.plan(i) is Ok && offsets.arrival_ns@[i] is Some
    }) by {}
    if start_failure(workload, offsets) is None {
        assert forall|i: int| 0 <= i < workload.count() implies if (#[trigger] workload.waits_for(i)).len() > 0 {
            workload.arrival(i) is None
        } else {
            workload.arrival(i) is Some && workload.plan(i) is Ok && offsets.arrival_ns@[i] is Some
        } by {
            assert(place_failure(workload, offsets, i) is None);
        }
    } else if forall|i: int|
        0 <= i < workload.count() ==> if (#[trigger] workload.waits_for(i)).len() > 0 {
            workload.arrival(i) is None
        } else {
            workload.arrival(i) is Some && workload.plan(i) is Ok && offsets.arrival_ns@[i] is Some
        } {
        assert forall|i: int| 0 <= i < workload.count() implies #[trigger] place_failure(
            workload,
            offsets,
            i,
        ) is None by {
            assert(workload.waits_for(i).len() >= 0);
        }
    }
}

proof fn lemma_graph<W: CausalWorkload>(workload: W, n: nat)
    ensures
        graph_failure(workload, n) is None <==> forall|i: int, k: int|
            0 <= i < n && 0 <= k < workload.waits_for(i).len() ==> (#[trigger] workload.waits_for(i)[k])
                < workload.count(),
    decreases n,
{
    if n > 0 {
        lemma_graph(workload, (n - 1) as nat);
        let dependencies = workload.waits_for(n - 1);
        lemma_missing(dependencies, workload.count(), dependencies.len());
        if graph_failure(workload, n) is None {
            assert forall|i: int, k: int| 0 <= i < n && 0 <= k < workload.waits_for(i).len() implies (
            #[trigger] workload.waits_for(i)[k]) < workload.count() by {
                if i == n - 1 {
                    assert(dependencies[k] < workload.count());
                }
            }
        } else if forall|i: int, k: int|
            0 <= i < n && 0 <= k < workload.waits_for(i).len() ==> (#[trigger] workload.waits_for(i)[k])
                < workload.count() {
            assert forall|k: int| 0 <= k < dependencies.len() implies (#[trigger] dependencies[k])
                < workload.count() by {
                assert(workload.waits_for(n - 1)[k] < workload.count());
            }
        }
    }
}

proof fn lemma_missing(dependencies: Seq<usize>, count: nat, n: nat)
    requires
        n <= dependencies.len(),
    ensures
        first_missing(dependencies, count, n) is None <==> forall|k: int|
            0 <= k < n ==> (#[trigger] dependencies[k]) < count,
    decreases n,
{
    if n > 0 {
        lemma_missing(dependencies, count, (n - 1) as nat);
    }
}

proof fn lemma_places<W: CausalWorkload>(workload: W, offsets: ScaledOffsets, n: nat)
    ensures
        places_failure(workload, offsets, n) is None <==> forall|i: int|
            0 <= i < n ==> #[trigger] place_failure(workload, offsets, i) is None,
    decreases n,
{
    if n > 0 {
        lemma_places(workload, offsets, (n - 1) as nat);
        if places_failure(workload, offsets, n) is None {
            assert(places_failure(workload, offsets, (n - 1) as nat) is None);
        }
    }
}

/// A captured request waits for what its turn does, for as long, and is held to the output length that
/// was recorded.
pub proof fn law_captured_requests_keep_their_length(workload: CapturedWorkload, i: int)
    requires
        0 <= i < workload.count(),
    ensures
        workload.count() == workload.trace.turns@.len(),
        workload.waits_for(i) == workload.trace.turns@[i].dependencies@,
        workload.delay(i) == workload.trace.turns@[i].delay_after_dependencies_ms,
        workload.arrival(i) == workload.trace.turns@[i].root_arrival_ms,
        workload.plan(i) is Ok ==> {
            let metadata = workload.plan(i)->Ok_0.metadata;
            let request = workload.trace.turns@[i].request;
            &&& metadata.expected_output_tokens == Some(request.output_tokens)
            &&& metadata.compaction_attempt is None
            &&& metadata.ordinal == request.ordinal
            &&& metadata.input_tokens == request.input_tokens
            &&& metadata.source_request_id == request.source_request_id@
        },
{
}

/// A planned request waits for what its node does, for as long, and is held to the budget of its node,
/// if that has one.
pub proof fn law_planned_requests_keep_their_budget(workload: GeneratedWorkload, i: int)
    requires
        0 <= i < workload.count(),
    ensures
        workload.count() == workload.scenario.nodes@.len(),
        workload.waits_for(i) == workload.scenario.nodes@[i].dependencies@,
        workload.delay(i) == workload.scenario.nodes@[i].delay_after_dependencies_ms,
        workload.arrival(i) == workload.scenario.nodes@[i].initial_arrival_ms,
        workload.plan(i) is Ok ==> {
            let metadata = workload.plan(i)->Ok_0.metadata;
            let node = workload.scenario.nodes@[i];
            &&& metadata.expected_output_tokens == node.output_budget_tokens
            &&& (metadata.compaction_attempt is Some <==> node.compaction_attempt is Some)
            &&& (node.compaction_attempt is Some ==> metadata.compaction_attempt == Some(node.compaction_attempt->0@))
            &&& metadata.ordinal == node.request.ordinal
            &&& metadata.input_tokens == node.request.input_tokens
        },
{
}

// ---------------------------------------------------------------------------------------------
// Recorded streams
// ---------------------------------------------------------------------------------------------

/// What is taken up at a time is the front of the schedule: every request up to the first that is not
/// due yet.
pub proof fn law_the_front_is_due(schedule: Seq<ScheduledRequest>, now_ns: u64)
    ensures
        due_count(schedule, now_ns) <= schedule.len(),
        forall|i: int| 0 <= i < due_count(schedule, now_ns) ==> (#[trigger] schedule[i]).ready_at_ns <= now_ns,
        due_count(schedule, now_ns) < schedule.len() ==> schedule[due_count(schedule, now_ns) as int].ready_at_ns
            > now_ns,
    decreases schedule.len(),
{
    if schedule.len() > 0 && schedule[0].ready_at_ns <= now_ns {
        let rest = schedule.drop_first();
        law_the_front_is_due(rest, now_ns);
        assert forall|i: int| 0 <= i < due_count(schedule, now_ns) implies (#[trigger] schedule[i]).ready_at_ns
            <= now_ns by {
            if i > 0 {
                assert(rest[i - 1] == schedule[i]);
            }
        }
    }
}

/// A run looks at the next request again early enough: at the time it names, and at no earlier one, the
/// request lies within the lookahead.
pub proof fn law_preparation_is_in_time(
    run: RecordedRun,
    waiting: PendingRequest,
    at_ns: u64,
    lookahead_ns: u64,
    ready_at_ns: u64,
)
    requires
        waiting.ready_at_ns == Some(ready_at_ns),
    ensures
        next_preparation(Some(waiting), lookahead_ns) is Some,
        next_preparation(Some(waiting), lookahead_ns)->0 <= at_ns <==> ready_at_ns <= at_ns + lookahead_ns,
        next_preparation(None, lookahead_ns) is None,
{
}

/// A run wakes for the first of what it waits for: to prepare or to dispatch.
pub proof fn law_wakes_are_the_earliest(
    pending: Option<PendingRequest>,
    schedule: Seq<ScheduledRequest>,
    lookahead_ns: u64,
)
    ensures
        ({
            let wake = next_wake(pending, schedule, lookahead_ns);
            let preparation = next_preparation(pending, lookahead_ns);
            &&& wake is None <==> pending is None && schedule.len() == 0
            &&& schedule.len() > 0 ==> wake->0 <= schedule[0].ready_at_ns
            &&& pending is Some ==> wake->0 <= preparation->0
            &&& wake is Some ==> schedule.len() > 0 && wake->0 == schedule[0].ready_at_ns || pending is Some && wake->0
                == preparation->0
        }),
{
}

/// A request within the horizon joins the schedule at its end, with its time; one beyond it stays; one
/// without output, one that cannot be prepared, and one that comes before the last one are refused.
pub proof fn law_requests_join_in_order(
    run: RecordedRun,
    waiting: PendingRequest,
    schedule: Seq<ScheduledRequest>,
    horizon_ns: u64,
    result: Result<bool, RecordedError>,
    pending_after: Option<PendingRequest>,
    after: Seq<ScheduledRequest>,
    ready_at_ns: u64,
)
    requires
        is_preparation(run, Some(waiting), schedule, horizon_ns, result, pending_after, after),
        waiting.ready_at_ns == Some(ready_at_ns),
    ensures
        ready_at_ns > horizon_ns ==> result == Ok::<bool, RecordedError>(false) && pending_after == Some(waiting)
            && after == schedule,
        ready_at_ns <= horizon_ns ==> pending_after is None,
        ready_at_ns <= horizon_ns && waiting.request.output_tokens == 0 ==> result is Err,
        ready_at_ns <= horizon_ns && recorded_plan(run, waiting.request) is Err ==> result is Err,
        ready_at_ns <= horizon_ns && schedule.len() > 0 && ready_at_ns < schedule.last().ready_at_ns ==> result is Err,
        ready_at_ns <= horizon_ns && schedule.len() > 0 && ready_at_ns == schedule.last().ready_at_ns
            && waiting.request.ordinal < schedule.last().request.metadata.ordinal ==> result is Err,
        ready_at_ns <= horizon_ns && waiting.request.output_tokens > 0 && recorded_plan(run, waiting.request) is Ok && (
        schedule.len() == 0 || ready_at_ns > schedule.last().ready_at_ns || ready_at_ns
            == schedule.last().ready_at_ns && waiting.request.ordinal
            >= schedule.last().request.metadata.ordinal) ==> {
            &&& result == Ok::<bool, RecordedError>(true)
            &&& after.len() == schedule.len() + 1
            &&& forall|i: int| 0 <= i < schedule.len() ==> #[trigger] after[i] == schedule[i]
            &&& after.last().ready_at_ns == ready_at_ns
            &&& after.last().request.metadata.expected_output_tokens == Some(waiting.request.output_tokens)
            &&& after.last().request.metadata.ordinal == waiting.request.ordinal
        },
        result is Err ==> after == schedule,
{
    if result == Ok::<bool, RecordedError>(true) {
        assert forall|i: int| 0 <= i < schedule.len() implies #[trigger] after[i] == schedule[i] by {
            assert(after.drop_last()[i] == schedule[i]);
        }
    }
}

/// A run sends exactly where a request is ready and a slot is free, sleeps without listening only where
/// nothing is in flight, and ends only where nothing waits, is scheduled or is in flight.
pub proof fn law_streams_step_by_their_state(state: RecordedView, lookahead_ns: u64)
    ensures
        ({
            let step = state.step(lookahead_ns);
            &&& step is Dispatch <==> state.ready.len() > 0 && state.flying < state.slots
            &&& step is Sleep || step is Finish ==> state.flying == 0
            &&& step is SleepOrComplete || step is Complete ==> state.flying > 0
            &&& step is Finish || step is Complete ==> state.waiting is None && state.scheduled.len() == 0
            &&& step is Sleep && state.scheduled.len() > 0 ==> step->Sleep_until_ns <= state.scheduled[0].ready_at_ns
            &&& step is SleepOrComplete && state.scheduled.len() > 0 ==> step->SleepOrComplete_until_ns
                <= state.scheduled[0].ready_at_ns
        }),
{
}

} // verus!
