//! Parallelism of the sampled tool phases.

use crate::scenario::model::{event_views, node_views, GeneratedNode, GeneratedToolParallelism, NodeView, ToolEventView};
use crate::scenario::outline::PlanError;
use vstd::prelude::*;

verus! {

/// The longest and the second-longest of the first `n` latencies.
pub open spec fn longest_two(events: Seq<ToolEventView>, n: nat) -> (u64, u64)
    decreases n,
{
    if n == 0 {
        (0, 0)
    } else {
        let (longest, second) = longest_two(events, (n - 1) as nat);
        let latency = events[n - 1].latency_ms;
        if latency >= longest {
            (latency, longest)
        } else if latency > second {
            (longest, latency)
        } else {
            (longest, second)
        }
    }
}

/// The sum of the first `n` latencies.
pub open spec fn work(events: Seq<ToolEventView>, n: nat) -> nat
    decreases n,
{
    if n == 0 {
        0
    } else {
        work(events, (n - 1) as nat) + events[n - 1].latency_ms as nat
    }
}

/// Counts one tool phase.
pub open spec fn counted(
    t: GeneratedToolParallelism,
    events: Seq<ToolEventView>,
) -> Result<GeneratedToolParallelism, PlanError> {
    let calls = events.len();
    let parallel = calls > 1;
    let (longest, second) = longest_two(events, calls);
    if t.tool_calls + calls > usize::MAX {
        Err(PlanError::CallsOverflow)
    } else if t.tool_work_ms + work(events, calls) > u64::MAX {
        Err(PlanError::WorkOverflow)
    } else if t.tool_wall_ms + longest > u64::MAX {
        Err(PlanError::WallOverflow)
    } else if parallel && t.parallel_wall_ms + second > u64::MAX {
        Err(PlanError::ParallelWallOverflow)
    } else {
        Ok(
            GeneratedToolParallelism {
                tool_phases: (t.tool_phases + 1) as usize,
                parallel_tool_phases: (t.parallel_tool_phases + if parallel {
                    1int
                } else {
                    0
                }) as usize,
                tool_calls: (t.tool_calls + calls) as usize,
                parallel_tool_calls: (t.parallel_tool_calls + if parallel {
                    calls as int
                } else {
                    0
                }) as usize,
                tool_work_ms: (t.tool_work_ms + work(events, calls)) as u64,
                tool_wall_ms: (t.tool_wall_ms + longest) as u64,
                parallel_wall_ms: (t.parallel_wall_ms + if parallel {
                    second as int
                } else {
                    0
                }) as u64,
            },
        )
    }
}

/// The parallelism of the first `n` nodes. The calls of a phase start together: its wall time is
/// the longest of them, and at least two are active for as long as the second-longest runs.
pub open spec fn parallelism(nodes: Seq<NodeView>, n: nat) -> Result<GeneratedToolParallelism, PlanError>
    decreases n,
{
    if n == 0 {
        Ok(
            GeneratedToolParallelism {
                tool_phases: 0,
                parallel_tool_phases: 0,
                tool_calls: 0,
                parallel_tool_calls: 0,
                tool_work_ms: 0,
                tool_wall_ms: 0,
                parallel_wall_ms: 0,
            },
        )
    } else {
        match parallelism(nodes, (n - 1) as nat) {
            Err(error) => Err(error),
            Ok(t) => if nodes[n - 1].tool_events.len() == 0 {
                Ok(t)
            } else {
                counted(t, nodes[n - 1].tool_events)
            },
        }
    }
}

proof fn lemma_keeps_failing(nodes: Seq<NodeView>, n: nat, m: nat)
    requires
        n <= m,
        parallelism(nodes, n) is Err,
    ensures
        parallelism(nodes, m) == parallelism(nodes, n),
    decreases m,
{
    if n < m {
        lemma_keeps_failing(nodes, n, (m - 1) as nat);
    }
}

proof fn lemma_work_grows(events: Seq<ToolEventView>, n: nat, m: nat)
    requires
        n <= m,
    ensures
        work(events, n) <= work(events, m),
    decreases m,
{
    if n < m {
        lemma_work_grows(events, n, (m - 1) as nat);
    }
}

/// The wall time of a phase lies between each of its calls and all of them together.
pub proof fn law_wall_time_bounds(events: Seq<ToolEventView>, n: nat, k: int)
    requires
        0 <= k < n <= events.len(),
    ensures
        events[k].latency_ms <= longest_two(events, n).0 <= work(events, n),
        longest_two(events, n).0 + longest_two(events, n).1 <= work(events, n),
        longest_two(events, n).1 <= longest_two(events, n).0,
    decreases n,
{
    if n == 1 {
        assert(longest_two(events, 0) == (0u64, 0u64));
        assert(work(events, 0) == 0);
    } else {
        law_wall_time_bounds(events, (n - 1) as nat, if k < n - 1 {
            k
        } else {
            0
        });
    }
}

/// Summarises the tool phases of a scenario.
pub fn summarize_tool_parallelism(nodes: &Vec<GeneratedNode>) -> (result: Result<
    GeneratedToolParallelism,
    PlanError,
>)
    ensures
        result == parallelism(node_views(nodes@), nodes@.len()),
{
    let ghost views = node_views(nodes@);
    let mut tally = GeneratedToolParallelism {
        tool_phases: 0,
        parallel_tool_phases: 0,
        tool_calls: 0,
        parallel_tool_calls: 0,
        tool_work_ms: 0,
        tool_wall_ms: 0,
        parallel_wall_ms: 0,
    };
    let mut i: usize = 0;
    while i < nodes.len()
        invariant
            i <= nodes@.len(),
            views == node_views(nodes@),
            parallelism(views, i as nat) == Ok::<GeneratedToolParallelism, PlanError>(tally),
            tally.tool_phases <= i,
            tally.parallel_tool_phases <= tally.tool_phases,
            tally.parallel_tool_calls <= tally.tool_calls,
        decreases nodes@.len() - i,
    {
        let events = &nodes[i].tool_events;
        let ghost seen = event_views(events@);
        assert(views[i as int].tool_events == seen);
        if events.len() > 0 {
            proof {
                if parallelism(views, i as nat + 1) is Err {
                    lemma_keeps_failing(views, i as nat + 1, nodes@.len());
                }
            }
            let calls = match tally.tool_calls.checked_add(events.len()) {
                Some(calls) => calls,
                None => {
                    return Err(PlanError::CallsOverflow);
                },
            };
            let mut longest: u64 = 0;
            let mut second: u64 = 0;
            let mut worked: u64 = tally.tool_work_ms;
            let mut k: usize = 0;
            while k < events.len()
                invariant
                    k <= events@.len(),
                    i < nodes@.len(),
                    views == node_views(nodes@),
                    seen == event_views(events@),
                    views[i as int].tool_events == seen,
                    seen.len() > 0,
                    parallelism(views, i as nat) == Ok::<GeneratedToolParallelism, PlanError>(tally),
                    parallelism(views, i as nat + 1) is Err ==> parallelism(views, nodes@.len()) == parallelism(
                        views,
                        i as nat + 1,
                    ),
                    tally.tool_calls + events@.len() <= usize::MAX,
                    (longest, second) == longest_two(seen, k as nat),
                    worked == tally.tool_work_ms + work(seen, k as nat),
                decreases events@.len() - k,
            {
                let latency = events[k].latency_ms;
                assert(seen[k as int].latency_ms == latency);
                worked = match worked.checked_add(latency) {
                    Some(sum) => sum,
                    None => {
                        proof {
                            lemma_work_grows(seen, k as nat + 1, seen.len());
                        }
                        return Err(PlanError::WorkOverflow);
                    },
                };
                if latency >= longest {
                    second = longest;
                    longest = latency;
                } else if latency > second {
                    second = latency;
                }
                k += 1;
            }
            let wall = match tally.tool_wall_ms.checked_add(longest) {
                Some(sum) => sum,
                None => {
                    return Err(PlanError::WallOverflow);
                },
            };
            tally.tool_phases = tally.tool_phases + 1;
            tally.tool_work_ms = worked;
            tally.tool_wall_ms = wall;
            if events.len() > 1 {
                tally.parallel_tool_phases = tally.parallel_tool_phases + 1;
                tally.parallel_tool_calls = tally.parallel_tool_calls + events.len();
                tally.parallel_wall_ms =
                match tally.parallel_wall_ms.checked_add(second) {
                    Some(sum) => sum,
                    None => {
                        return Err(PlanError::ParallelWallOverflow);
                    },
                };
            }
            tally.tool_calls = calls;
        }
        i += 1;
    }
    Ok(tally)
}

} // verus!
