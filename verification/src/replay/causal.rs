//! Closed-loop scheduling: a request becomes ready once everything it waits for has completed.

use crate::ordered::{is_sorted, Ranked};
use crate::replay::request::{PreparedRequest, PreparedView};
use crate::replay::workload::CausalWorkload;
use crate::scheduler::{releases, ReadyItem, ReadyQueue};
use crate::text::{decimal, decimal_text};
use crate::token_shape::error::TokenError;
use crate::trace::dag::{is_acyclic, ranked_by};
use vstd::multiset::Multiset;
use vstd::prelude::*;

verus! {

/// Arrivals and delays in nanoseconds, divided by the time scale; nothing where the quotient is
/// outside the range of nanoseconds.
#[derive(Debug)]
pub struct ScaledOffsets {
    pub arrival_ns: Vec<Option<u64>>,
    pub delay_ns: Vec<Option<u64>>,
}

/// Where a request stands. A completed one keeps the time of its completion.
#[derive(Debug, Clone, Copy, PartialEq, Eq, Structural)]
pub enum NodeStatus {
    Waiting,
    Queued,
    InFlight,
    Done(u64),
}

/// Why a run cannot go on.
#[derive(Debug)]
pub enum CausalError {
    MissingDependency { ordinal: usize, dependency: usize },
    NoArrival { ordinal: usize },
    SpareArrival { ordinal: usize },
    OutOfRange,
    Overflow,
    Preparation(TokenError),
    ReleasedTwice { ordinal: usize },
    Stalled { completed: usize, total: usize },
}

impl CausalError {
    /// The message, for a workload of the given name.
    pub open spec fn text(self, name: Seq<char>) -> Seq<char> {
        match self {
            CausalError::MissingDependency { ordinal, dependency } => name + " node "@ + decimal(ordinal as nat)
                + " has missing dependency "@ + decimal(dependency as nat),
            CausalError::NoArrival { ordinal } => name + " root node "@ + decimal(ordinal as nat)
                + " has no initial arrival"@,
            CausalError::SpareArrival { ordinal } => name + " dependent node "@ + decimal(ordinal as nat)
                + " also has an initial arrival"@,
            CausalError::OutOfRange => "scaled replay timestamp is outside the u64 nanosecond range"@,
            CausalError::Overflow => "causal successor timestamp overflow"@,
            CausalError::Preparation(error) => error.text(),
            CausalError::ReleasedTwice { ordinal } => name + " node "@ + decimal(ordinal as nat)
                + " was released twice"@,
            CausalError::Stalled { completed, total } => name + " graph stalled after "@ + decimal(
                completed as nat,
            ) + " of "@ + decimal(total as nat) + " requests"@,
        }
    }

    /// The message, for a workload of the given name.
    pub fn message(&self, name: &str) -> (text: String)
        ensures
            text@ == self.text(name@),
    {
        let mut text = String::new();
        match self {
            CausalError::MissingDependency { ordinal, dependency } => {
                text.append(name);
                text.append(" node ");
                text.append(decimal_text(*ordinal as u64).as_str());
                text.append(" has missing dependency ");
                text.append(decimal_text(*dependency as u64).as_str());
            },
            CausalError::NoArrival { ordinal } => {
                text.append(name);
                text.append(" root node ");
                text.append(decimal_text(*ordinal as u64).as_str());
                text.append(" has no initial arrival");
            },
            CausalError::SpareArrival { ordinal } => {
                text.append(name);
                text.append(" dependent node ");
                text.append(decimal_text(*ordinal as u64).as_str());
                text.append(" also has an initial arrival");
            },
            CausalError::OutOfRange => {
                text.append("scaled replay timestamp is outside the u64 nanosecond range");
            },
            CausalError::Overflow => {
                text.append("causal successor timestamp overflow");
            },
            CausalError::Preparation(error) => {
                text.append(error.message().as_str());
            },
            CausalError::ReleasedTwice { ordinal } => {
                text.append(name);
                text.append(" node ");
                text.append(decimal_text(*ordinal as u64).as_str());
                text.append(" was released twice");
            },
            CausalError::Stalled { completed, total } => {
                text.append(name);
                text.append(" graph stalled after ");
                text.append(decimal_text(*completed as u64).as_str());
                text.append(" of ");
                text.append(decimal_text(*total as u64).as_str());
                text.append(" requests");
            },
        }
        assert(text@ =~= self.text(name@));
        text
    }
}

// ---------------------------------------------------------------------------------------------
// Readiness
// ---------------------------------------------------------------------------------------------

/// A dependency has completed.
pub open spec fn is_done(status: Seq<NodeStatus>, i: int) -> bool {
    status[i] is Done
}

/// The first `n` of some dependencies have completed.
pub open spec fn have_completed(dependencies: Seq<usize>, status: Seq<NodeStatus>, n: nat) -> bool {
    forall|k: int| 0 <= k < n ==> is_done(status, #[trigger] dependencies[k] as int)
}

/// Everything that a request waits for has completed.
pub open spec fn is_released<W: CausalWorkload>(workload: W, status: Seq<NodeStatus>, i: int) -> bool {
    have_completed(workload.waits_for(i), status, workload.waits_for(i).len())
}

/// The latest completion among the first `n` of some dependencies.
pub open spec fn latest(dependencies: Seq<usize>, status: Seq<NodeStatus>, n: nat) -> u64
    decreases n,
{
    if n == 0 {
        0
    } else {
        let before = latest(dependencies, status, (n - 1) as nat);
        match status[dependencies[n - 1] as int] {
            NodeStatus::Done(at) => if at > before {
                at
            } else {
                before
            },
            _ => before,
        }
    }
}

/// When a released request is due: at its arrival where it waits for nothing, else its delay
/// after the latest completion it waited for.
pub open spec fn due<W: CausalWorkload>(
    workload: W,
    offsets: ScaledOffsets,
    status: Seq<NodeStatus>,
    i: int,
) -> int {
    let dependencies = workload.waits_for(i);
    if dependencies.len() == 0 {
        offsets.arrival_ns@[i]->0 as int
    } else {
        latest(dependencies, status, dependencies.len()) + offsets.delay_ns@[i]->0
    }
}

/// Why a request that has just been released cannot be queued.
pub open spec fn release_failure<W: CausalWorkload>(
    workload: W,
    offsets: ScaledOffsets,
    status: Seq<NodeStatus>,
    i: int,
) -> Option<CausalError> {
    if offsets.delay_ns@[i] is None {
        Some(CausalError::OutOfRange)
    } else {
        match workload.plan(i) {
            Err(error) => Some(CausalError::Preparation(error)),
            Ok(_) => if due(workload, offsets, status, i) > u64::MAX {
                Some(CausalError::Overflow)
            } else {
                None
            },
        }
    }
}

/// A request that a completion releases.
pub open spec fn newly_released<W: CausalWorkload>(workload: W, status: Seq<NodeStatus>, i: int) -> bool {
    status[i] is Waiting && is_released(workload, status, i)
}

/// The requests below `n` that a completion releases, in order.
pub open spec fn release_list<W: CausalWorkload>(workload: W, status: Seq<NodeStatus>, n: nat) -> Seq<usize>
    decreases n,
{
    if n == 0 {
        Seq::empty()
    } else {
        let before = release_list(workload, status, (n - 1) as nat);
        if newly_released(workload, status, n - 1) {
            before.push((n - 1) as usize)
        } else {
            before
        }
    }
}

/// Why the first of the requests below `n` that a completion releases cannot be queued.
pub open spec fn completion_failure<W: CausalWorkload>(
    workload: W,
    offsets: ScaledOffsets,
    status: Seq<NodeStatus>,
    n: nat,
) -> Option<CausalError>
    decreases n,
{
    if n == 0 {
        None
    } else {
        match completion_failure(workload, offsets, status, (n - 1) as nat) {
            Some(error) => Some(error),
            None => if newly_released(workload, status, n - 1) {
                release_failure(workload, offsets, status, n - 1)
            } else {
                None
            },
        }
    }
}

/// The status once everything that was released is queued.
pub open spec fn advanced<W: CausalWorkload>(workload: W, status: Seq<NodeStatus>) -> Seq<NodeStatus> {
    Seq::new(
        status.len(),
        |i: int|
            if newly_released(workload, status, i) {
                NodeStatus::Queued
            } else {
                status[i]
            },
    )
}

// ---------------------------------------------------------------------------------------------
// Start
// ---------------------------------------------------------------------------------------------

/// The first of the first `n` dependencies that is no request.
pub open spec fn first_missing(dependencies: Seq<usize>, count: nat, n: nat) -> Option<usize>
    decreases n,
{
    if n == 0 {
        None
    } else {
        match first_missing(dependencies, count, (n - 1) as nat) {
            Some(missing) => Some(missing),
            None => if dependencies[n - 1] >= count {
                Some(dependencies[n - 1])
            } else {
                None
            },
        }
    }
}

/// Why the dependencies of the first `n` requests make no graph.
pub open spec fn graph_failure<W: CausalWorkload>(workload: W, n: nat) -> Option<CausalError>
    decreases n,
{
    if n == 0 {
        None
    } else {
        match graph_failure(workload, (n - 1) as nat) {
            Some(error) => Some(error),
            None => {
                let dependencies = workload.waits_for(n - 1);
                match first_missing(dependencies, workload.count(), dependencies.len()) {
                    Some(dependency) => Some(
                        CausalError::MissingDependency { ordinal: (n - 1) as usize, dependency },
                    ),
                    None => None,
                }
            },
        }
    }
}

/// Why one request cannot take its place at the start.
pub open spec fn place_failure<W: CausalWorkload>(workload: W, offsets: ScaledOffsets, i: int) -> Option<
    CausalError,
> {
    if workload.waits_for(i).len() > 0 {
        if workload.arrival(i) is Some {
            Some(CausalError::SpareArrival { ordinal: i as usize })
        } else {
            None
        }
    } else if workload.arrival(i) is None {
        Some(CausalError::NoArrival { ordinal: i as usize })
    } else {
        match workload.plan(i) {
            Err(error) => Some(CausalError::Preparation(error)),
            Ok(_) => if offsets.arrival_ns@[i] is None {
                Some(CausalError::OutOfRange)
            } else {
                None
            },
        }
    }
}

/// Why one of the first `n` requests cannot take its place at the start.
pub open spec fn places_failure<W: CausalWorkload>(workload: W, offsets: ScaledOffsets, n: nat) -> Option<
    CausalError,
>
    decreases n,
{
    if n == 0 {
        None
    } else {
        match places_failure(workload, offsets, (n - 1) as nat) {
            Some(error) => Some(error),
            None => place_failure(workload, offsets, n - 1),
        }
    }
}

/// Why a workload cannot start.
pub open spec fn start_failure<W: CausalWorkload>(workload: W, offsets: ScaledOffsets) -> Option<CausalError> {
    match graph_failure(workload, workload.count()) {
        Some(error) => Some(error),
        None => places_failure(workload, offsets, workload.count()),
    }
}

/// The status of a request at the start.
pub open spec fn first_status<W: CausalWorkload>(workload: W, i: int) -> NodeStatus {
    if workload.waits_for(i).len() == 0 {
        NodeStatus::Queued
    } else {
        NodeStatus::Waiting
    }
}

// ---------------------------------------------------------------------------------------------
// The scheduler
// ---------------------------------------------------------------------------------------------

/// What to do next.
#[derive(Debug, Clone, Copy, PartialEq, Eq, Structural)]
pub enum CausalStep {
    /// Requests are due.
    Dispatch,
    /// Sleep up to this time; nothing is in flight.
    Sleep { until_ns: u64 },
    /// Sleep up to this time, or until a request completes.
    SleepOrComplete { until_ns: u64 },
    /// Wait for a request to complete.
    Complete,
    /// Nothing is left to do.
    Finish,
}

/// A request that is due.
#[derive(Debug)]
pub struct DueRequest {
    pub ready_at_ns: u64,
    pub ordinal: usize,
    pub request: PreparedRequest,
}

impl Ranked for DueRequest {
    /// By ready time, then by ordinal.
    open spec fn ranks_before(self, other: Self) -> bool {
        self.ready_at_ns < other.ready_at_ns || (self.ready_at_ns == other.ready_at_ns && self.ordinal
            <= other.ordinal)
    }

    proof fn rank_total(a: Self, b: Self) {
    }

    proof fn rank_transitive(a: Self, b: Self, c: Self) {
    }

    fn precedes(&self, other: &Self) -> (result: bool) {
        self.ready_at_ns < other.ready_at_ns || (self.ready_at_ns == other.ready_at_ns && self.ordinal
            <= other.ordinal)
    }
}

/// Runs a workload: queues what is ready, hands out what is due, takes note of what completes.
pub struct CausalScheduler<'a, W: CausalWorkload> {
    workload: &'a W,
    offsets: ScaledOffsets,
    successors: Vec<Vec<usize>>,
    status: Vec<NodeStatus>,
    prepared: Vec<Option<PreparedRequest>>,
    queue: ReadyQueue<usize>,
    in_flight: usize,
    completed: usize,
}

/// `item` stands in the queue of a run.
pub open spec fn is_queued<W: CausalWorkload>(
    workload: W,
    offsets: ScaledOffsets,
    status: Seq<NodeStatus>,
    item: ReadyItem<usize>,
) -> bool {
    &&& item.ordinal < status.len()
    &&& item.value == item.ordinal
    &&& status[item.ordinal as int] is Queued
    &&& item.ready_at_ns == due(workload, offsets, status, item.ordinal as int)
}

/// How many of the first `n` requests are in flight.
pub open spec fn flying(status: Seq<NodeStatus>, n: nat) -> nat
    decreases n,
{
    if n == 0 {
        0
    } else {
        flying(status, (n - 1) as nat) + if status[n - 1] is InFlight {
            1nat
        } else {
            0nat
        }
    }
}

/// How many of the first `n` requests have completed.
pub open spec fn landed(status: Seq<NodeStatus>, n: nat) -> nat
    decreases n,
{
    if n == 0 {
        0
    } else {
        landed(status, (n - 1) as nat) + if status[n - 1] is Done {
            1nat
        } else {
            0nat
        }
    }
}

/// Every request waits only while something it needs is open; what is queued has its time.
pub open spec fn in_step<W: CausalWorkload>(workload: W, offsets: ScaledOffsets, status: Seq<NodeStatus>) -> bool {
    &&& status.len() == workload.count()
    &&& offsets.arrival_ns@.len() == workload.count()
    &&& offsets.delay_ns@.len() == workload.count()
    &&& forall|i: int, k: int|
        0 <= i < status.len() && 0 <= k < workload.waits_for(i).len() ==> (#[trigger] workload.waits_for(i)[k])
            < status.len()
    &&& forall|i: int|
        0 <= i < status.len() ==> (#[trigger] status[i] is Waiting <==> !is_released(workload, status, i))
    &&& forall|i: int|
        0 <= i < status.len() && #[trigger] status[i] is Queued ==> 0 <= due(workload, offsets, status, i)
            <= u64::MAX
}

proof fn lemma_counts(status: Seq<NodeStatus>, n: nat)
    requires
        n <= status.len(),
    ensures
        flying(status, n) + landed(status, n) <= n,
        flying(status, n) == 0 ==> forall|i: int| 0 <= i < n ==> !(#[trigger] status[i] is InFlight),
        flying(status, n) > 0 ==> exists|i: int| 0 <= i < n && #[trigger] status[i] is InFlight,
        landed(status, n) == n <==> forall|i: int| 0 <= i < n ==> #[trigger] status[i] is Done,
    decreases n,
{
    if n > 0 {
        lemma_counts(status, (n - 1) as nat);
        if status[n - 1] is InFlight {
            assert(status[n - 1] is InFlight);
        }
        if landed(status, n) == n {
            assert(status[n - 1] is Done);
            assert(landed(status, (n - 1) as nat) == n - 1);
        }
        if forall|i: int| 0 <= i < n ==> #[trigger] status[i] is Done {
            assert(status[n - 1] is Done);
        }
    }
}

proof fn lemma_counts_update(status: Seq<NodeStatus>, i: int, value: NodeStatus, n: nat)
    requires
        0 <= i < status.len(),
        n <= status.len(),
    ensures
        flying(status.update(i, value), n) == flying(status, n) + (if i < n && value is InFlight {
            1int
        } else {
            0
        }) - (if i < n && status[i] is InFlight {
            1int
        } else {
            0
        }),
        landed(status.update(i, value), n) == landed(status, n) + (if i < n && value is Done {
            1int
        } else {
            0
        }) - (if i < n && status[i] is Done {
            1int
        } else {
            0
        }),
    decreases n,
{
    if n > 0 {
        lemma_counts_update(status, i, value, (n - 1) as nat);
    }
}

proof fn lemma_latest_frame(dependencies: Seq<usize>, a: Seq<NodeStatus>, b: Seq<NodeStatus>, n: nat)
    requires
        n <= dependencies.len(),
        forall|k: int| 0 <= k < n ==> a[#[trigger] dependencies[k] as int] == b[dependencies[k] as int],
    ensures
        latest(dependencies, a, n) == latest(dependencies, b, n),
    decreases n,
{
    if n > 0 {
        lemma_latest_frame(dependencies, a, b, (n - 1) as nat);
        assert(a[dependencies[n - 1] as int] == b[dependencies[n - 1] as int]);
    }
}

/// The latest completion is one of them, and none is later.
pub proof fn law_latest_is_latest(dependencies: Seq<usize>, status: Seq<NodeStatus>, n: nat)
    requires
        n <= dependencies.len(),
        have_completed(dependencies, status, n),
    ensures
        forall|k: int|
            0 <= k < n ==> status[#[trigger] dependencies[k] as int]->Done_0 <= latest(dependencies, status, n),
        n > 0 ==> exists|k: int|
            0 <= k < n && status[#[trigger] dependencies[k] as int] == NodeStatus::Done(
                latest(dependencies, status, n),
            ),
    decreases n,
{
    if n > 0 {
        law_latest_is_latest(dependencies, status, (n - 1) as nat);
        assert(is_done(status, dependencies[n - 1] as int));
        let before = latest(dependencies, status, (n - 1) as nat);
        let at = status[dependencies[n - 1] as int]->Done_0;
        assert(status[dependencies[n - 1] as int] == NodeStatus::Done(at));
        if at <= before && n > 1 {
            let k = choose|k: int|
                0 <= k < n - 1 && status[#[trigger] dependencies[k] as int] == NodeStatus::Done(before);
            assert(status[dependencies[k] as int] == NodeStatus::Done(latest(dependencies, status, n)));
        } else {
            assert(status[dependencies[n - 1] as int] == NodeStatus::Done(latest(dependencies, status, n)));
        }
    }
}

/// Nothing is handed out, sent or completed before everything it waits for has completed, and
/// nothing is due before the last of it has.
pub proof fn law_nothing_runs_early<W: CausalWorkload>(
    workload: W,
    offsets: ScaledOffsets,
    status: Seq<NodeStatus>,
    i: int,
    k: int,
)
    requires
        in_step(workload, offsets, status),
        0 <= i < status.len(),
        !(status[i] is Waiting),
        0 <= k < workload.waits_for(i).len(),
    ensures
        status[workload.waits_for(i)[k] as int] is Done,
        status[workload.waits_for(i)[k] as int]->Done_0 <= due(workload, offsets, status, i),
{
    let dependencies = workload.waits_for(i);
    assert(is_released(workload, status, i));
    assert(is_done(status, dependencies[k] as int));
    law_latest_is_latest(dependencies, status, dependencies.len());
}

/// The dependencies of all requests.
pub open spec fn graph_of<W: CausalWorkload>(workload: W) -> Seq<Seq<usize>> {
    Seq::new(workload.count(), |i: int| workload.waits_for(i))
}

proof fn lemma_ranked_nodes_finish<W: CausalWorkload>(
    workload: W,
    offsets: ScaledOffsets,
    status: Seq<NodeStatus>,
    rank: spec_fn(int) -> nat,
    i: int,
)
    requires
        in_step(workload, offsets, status),
        ranked_by(graph_of(workload), rank),
        forall|j: int| 0 <= j < status.len() ==> !(#[trigger] status[j] is Queued) && !(status[j] is InFlight),
        0 <= i < status.len(),
    ensures
        status[i] is Done,
    decreases rank(i),
{
    let dependencies = workload.waits_for(i);
    assert forall|k: int| 0 <= k < dependencies.len() implies is_done(status, #[trigger] dependencies[k] as int) by {
        assert(graph_of(workload)[i][k] == dependencies[k]);
        assert(workload.waits_for(i)[k] < status.len());
        lemma_ranked_nodes_finish(workload, offsets, status, rank, dependencies[k] as int);
    }
    assert(is_released(workload, status, i));
    assert(status[i] is Waiting || status[i] is Done);
}

/// A graph without cycles never stalls: once nothing is queued or in flight, all of it has
/// completed.
pub proof fn law_acyclic_graphs_finish<W: CausalWorkload>(
    workload: W,
    offsets: ScaledOffsets,
    status: Seq<NodeStatus>,
)
    requires
        in_step(workload, offsets, status),
        is_acyclic(graph_of(workload)),
        forall|j: int| 0 <= j < status.len() ==> !(#[trigger] status[j] is Queued) && !(status[j] is InFlight),
    ensures
        forall|j: int| 0 <= j < status.len() ==> #[trigger] status[j] is Done,
{
    let rank = choose|rank: spec_fn(int) -> nat| ranked_by(graph_of(workload), rank);
    assert forall|j: int| 0 <= j < status.len() implies #[trigger] status[j] is Done by {
        lemma_ranked_nodes_finish(workload, offsets, status, rank, j);
    }
}

// ---------------------------------------------------------------------------------------------
// Running
// ---------------------------------------------------------------------------------------------

/// The status once what was released below `bound` is queued.
pub open spec fn partly<W: CausalWorkload>(workload: W, status: Seq<NodeStatus>, bound: int) -> Seq<NodeStatus> {
    Seq::new(
        status.len(),
        |i: int|
            if i < bound && newly_released(workload, status, i) {
                NodeStatus::Queued
            } else {
                status[i]
            },
    )
}

/// The first of the requests below `n` that a completion releases and that cannot be queued.
pub open spec fn first_refused<W: CausalWorkload>(
    workload: W,
    offsets: ScaledOffsets,
    status: Seq<NodeStatus>,
    n: nat,
) -> nat
    decreases n,
{
    if n == 0 {
        0
    } else if completion_failure(workload, offsets, status, (n - 1) as nat) is Some {
        first_refused(workload, offsets, status, (n - 1) as nat)
    } else {
        (n - 1) as nat
    }
}

spec fn same_done(a: Seq<NodeStatus>, b: Seq<NodeStatus>) -> bool {
    &&& a.len() == b.len()
    &&& forall|i: int| 0 <= i < a.len() ==> (#[trigger] a[i] is Done <==> b[i] is Done)
    &&& forall|i: int| 0 <= i < a.len() && #[trigger] a[i] is Done ==> a[i] == b[i]
}

spec fn closed_under<W: CausalWorkload>(workload: W, n: nat) -> bool {
    forall|i: int, k: int|
        0 <= i < n && 0 <= k < workload.waits_for(i).len() ==> (#[trigger] workload.waits_for(i)[k]) < n
}

proof fn lemma_latest_same(dependencies: Seq<usize>, a: Seq<NodeStatus>, b: Seq<NodeStatus>, n: nat)
    requires
        n <= dependencies.len(),
        same_done(a, b),
        forall|k: int| 0 <= k < n ==> (#[trigger] dependencies[k]) < a.len(),
    ensures
        latest(dependencies, a, n) == latest(dependencies, b, n),
        have_completed(dependencies, a, n) == have_completed(dependencies, b, n),
    decreases n,
{
    if n > 0 {
        lemma_latest_same(dependencies, a, b, (n - 1) as nat);
        let d = dependencies[n - 1] as int;
        assert(dependencies[n - 1] < a.len());
        assert(a[d] is Done <==> b[d] is Done);
        assert(have_completed(dependencies, a, n) <==> have_completed(dependencies, a, (n - 1) as nat) && is_done(
            a,
            d,
        )) by {
            lemma_completed_step(dependencies, a, n);
        }
        assert(have_completed(dependencies, b, n) <==> have_completed(dependencies, b, (n - 1) as nat) && is_done(
            b,
            d,
        )) by {
            lemma_completed_step(dependencies, b, n);
        }
    }
}

proof fn lemma_completed_step(dependencies: Seq<usize>, status: Seq<NodeStatus>, n: nat)
    requires
        0 < n <= dependencies.len(),
    ensures
        have_completed(dependencies, status, n) <==> have_completed(dependencies, status, (n - 1) as nat) && is_done(
            status,
            dependencies[n - 1] as int,
        ),
{
    if have_completed(dependencies, status, (n - 1) as nat) && is_done(status, dependencies[n - 1] as int) {
        assert forall|k: int| 0 <= k < n implies is_done(status, #[trigger] dependencies[k] as int) by {
        }
    }
    if have_completed(dependencies, status, n) {
        assert(is_done(status, dependencies[n - 1] as int));
    }
}

proof fn lemma_same_done_step<W: CausalWorkload>(
    workload: W,
    offsets: ScaledOffsets,
    a: Seq<NodeStatus>,
    b: Seq<NodeStatus>,
    i: int,
)
    requires
        same_done(a, b),
        closed_under(workload, a.len()),
        0 <= i < a.len(),
    ensures
        due(workload, offsets, a, i) == due(workload, offsets, b, i),
        is_released(workload, a, i) == is_released(workload, b, i),
{
    let dependencies = workload.waits_for(i);
    assert forall|k: int| 0 <= k < dependencies.len() implies (#[trigger] dependencies[k]) < a.len() by {
        assert(workload.waits_for(i)[k] < a.len());
    }
    lemma_latest_same(dependencies, a, b, dependencies.len());
}

/// Completing a request leaves alone what did not wait for it.
proof fn lemma_completion_frame<W: CausalWorkload>(
    workload: W,
    offsets: ScaledOffsets,
    status: Seq<NodeStatus>,
    ordinal: int,
    at: u64,
    i: int,
)
    requires
        closed_under(workload, status.len()),
        0 <= ordinal < status.len(),
        status[ordinal] is InFlight,
        0 <= i < status.len(),
        !workload.waits_for(i).contains(ordinal as usize),
    ensures
        due(workload, offsets, status.update(ordinal, NodeStatus::Done(at)), i) == due(workload, offsets, status, i),
        is_released(workload, status.update(ordinal, NodeStatus::Done(at)), i) == is_released(workload, status, i),
{
    let after = status.update(ordinal, NodeStatus::Done(at));
    let dependencies = workload.waits_for(i);
    assert forall|k: int| 0 <= k < dependencies.len() implies status[#[trigger] dependencies[k] as int]
        == after[dependencies[k] as int] by {
        assert(dependencies.contains(dependencies[k]));
    }
    lemma_latest_frame(dependencies, status, after, dependencies.len());
    if is_released(workload, after, i) {
        assert forall|k: int| 0 <= k < dependencies.len() implies is_done(status, #[trigger] dependencies[k] as int) by {
            assert(is_done(after, dependencies[k] as int));
        }
    }
    if is_released(workload, status, i) {
        assert forall|k: int| 0 <= k < dependencies.len() implies is_done(after, #[trigger] dependencies[k] as int) by {
            assert(is_done(status, dependencies[k] as int));
        }
    }
}

proof fn lemma_release_list_skips<W: CausalWorkload>(
    workload: W,
    offsets: ScaledOffsets,
    status: Seq<NodeStatus>,
    a: nat,
    b: nat,
)
    requires
        a <= b,
        forall|i: int| a <= i < b ==> !(#[trigger] newly_released(workload, status, i)),
    ensures
        release_list(workload, status, a) == release_list(workload, status, b),
        completion_failure(workload, offsets, status, a) == completion_failure(workload, offsets, status, b),
    decreases b - a,
{
    if a < b {
        lemma_release_list_skips(workload, offsets, status, a, (b - 1) as nat);
        assert(!newly_released(workload, status, b - 1));
    }
}

proof fn lemma_failure_stands<W: CausalWorkload>(
    workload: W,
    offsets: ScaledOffsets,
    status: Seq<NodeStatus>,
    at: nat,
    n: nat,
)
    requires
        at < n,
        completion_failure(workload, offsets, status, at) is None,
        completion_failure(workload, offsets, status, at + 1) is Some,
    ensures
        completion_failure(workload, offsets, status, n) == completion_failure(workload, offsets, status, at + 1),
        first_refused(workload, offsets, status, n) == at,
    decreases n,
{
    if at + 1 < n {
        lemma_failure_stands(workload, offsets, status, at, (n - 1) as nat);
    }
}

proof fn lemma_graph_failure_stands<W: CausalWorkload>(workload: W, m: nat, n: nat)
    requires
        m <= n,
        graph_failure(workload, m) is Some,
    ensures
        graph_failure(workload, n) == graph_failure(workload, m),
    decreases n,
{
    if m < n {
        lemma_graph_failure_stands(workload, m, (n - 1) as nat);
    }
}

proof fn lemma_missing_stands(dependencies: Seq<usize>, count: nat, m: nat, n: nat)
    requires
        m <= n,
        first_missing(dependencies, count, m) is Some,
    ensures
        first_missing(dependencies, count, n) == first_missing(dependencies, count, m),
    decreases n,
{
    if m < n {
        lemma_missing_stands(dependencies, count, m, (n - 1) as nat);
    }
}

proof fn lemma_places_failure_stands<W: CausalWorkload>(workload: W, offsets: ScaledOffsets, m: nat, n: nat)
    requires
        m <= n,
        places_failure(workload, offsets, m) is Some,
    ensures
        places_failure(workload, offsets, n) == places_failure(workload, offsets, m),
    decreases n,
{
    if m < n {
        lemma_places_failure_stands(workload, offsets, m, (n - 1) as nat);
    }
}

proof fn lemma_first_counts<W: CausalWorkload>(workload: W, status: Seq<NodeStatus>, n: nat)
    requires
        n <= status.len(),
        forall|i: int| 0 <= i < n ==> #[trigger] status[i] == first_status(workload, i),
    ensures
        flying(status, n) == 0,
        landed(status, n) == 0,
    decreases n,
{
    if n > 0 {
        lemma_first_counts(workload, status, (n - 1) as nat);
        assert(status[n - 1] == first_status(workload, n - 1));
    }
}

/// `list` holds the requests below `n` that wait for `of`, each once, in order.
spec fn lists_successors<W: CausalWorkload>(workload: W, list: Seq<usize>, of: int, n: int) -> bool {
    &&& forall|i: int, j: int| 0 <= i < j < list.len() ==> #[trigger] list[i] < #[trigger] list[j]
    &&& forall|i: int| 0 <= i < list.len() ==> (#[trigger] list[i]) < n && workload.waits_for(list[i] as int).contains(
        of as usize,
    )
    &&& forall|i: int| 0 <= i < n && (#[trigger] workload.waits_for(i)).contains(of as usize) ==> list.contains(
        i as usize,
    )
}

/// As [`lists_successors`], with the first `k` dependencies of request `n` on top.
spec fn lists_more<W: CausalWorkload>(workload: W, list: Seq<usize>, of: int, n: int, k: int) -> bool {
    if workload.waits_for(n).take(k).contains(of as usize) {
        list.len() > 0 && list.last() == n && lists_successors(workload, list.drop_last(), of, n)
    } else {
        lists_successors(workload, list, of, n)
    }
}

proof fn lemma_lists_next<W: CausalWorkload>(workload: W, list: Seq<usize>, of: int, n: int)
    requires
        0 <= n <= usize::MAX,
        lists_more(workload, list, of, n, workload.waits_for(n).len() as int),
    ensures
        lists_successors(workload, list, of, n + 1),
{
    let dependencies = workload.waits_for(n);
    assert(dependencies.take(dependencies.len() as int) =~= dependencies);
    if dependencies.contains(of as usize) {
        let head = list.drop_last();
        assert forall|i: int, j: int| 0 <= i < j < list.len() implies #[trigger] list[i] < #[trigger] list[j] by {
            assert(list[i] == head[i]);
            if j < head.len() {
                assert(list[j] == head[j]);
            }
        }
        assert forall|i: int| 0 <= i < list.len() implies (#[trigger] list[i]) < n + 1 && workload.waits_for(
            list[i] as int,
        ).contains(of as usize) by {
            if i < head.len() {
                assert(list[i] == head[i]);
            }
        }
        assert forall|i: int| 0 <= i < n + 1 && (#[trigger] workload.waits_for(i)).contains(
            of as usize,
        ) implies list.contains(i as usize) by {
            if i < n {
                assert(head.contains(i as usize));
                let k = head.index_of(i as usize);
                assert(list[k] == i as usize);
            } else {
                assert(list[list.len() - 1] == i as usize);
            }
        }
    }
}

impl<'a, W: CausalWorkload> CausalScheduler<'a, W> {
    /// The workload.
    pub closed spec fn job(&self) -> W {
        *self.workload
    }

    /// Its arrivals and delays.
    pub closed spec fn times(&self) -> ScaledOffsets {
        self.offsets
    }

    /// Where each request stands.
    pub closed spec fn statuses(&self) -> Seq<NodeStatus> {
        self.status@
    }

    spec fn sound(&self, status: Seq<NodeStatus>) -> bool {
        let workload = *self.workload;
        &&& self.status@ == status
        &&& status.len() == workload.count()
        &&& status.len() <= usize::MAX
        &&& self.offsets.arrival_ns@.len() == status.len()
        &&& self.offsets.delay_ns@.len() == status.len()
        &&& closed_under(workload, status.len())
        &&& self.prepared@.len() == status.len()
        &&& forall|i: int|
            0 <= i < status.len() ==> ((#[trigger] self.prepared@[i]) is Some <==> status[i] is Queued)
        &&& forall|i: int|
            0 <= i < status.len() && (#[trigger] self.prepared@[i]) is Some ==> workload.plan(i) == Ok::<
                PreparedView,
                TokenError,
            >(self.prepared@[i]->0@)
        &&& self.successors@.len() == status.len()
        &&& forall|j: int|
            0 <= j < status.len() ==> lists_successors(
                workload,
                (#[trigger] self.successors@[j])@,
                j,
                status.len() as int,
            )
        &&& forall|item: ReadyItem<usize>| #[trigger]
            self.queue@.count(item) == (if is_queued(workload, self.offsets, status, item) {
                1nat
            } else {
                0nat
            })
        &&& self.in_flight == flying(status, status.len())
        &&& self.completed == landed(status, status.len())
        &&& forall|i: int|
            0 <= i < status.len() && #[trigger] status[i] is Queued ==> 0 <= due(
                workload,
                self.offsets,
                status,
                i,
            ) <= u64::MAX
    }

    /// The run is in step with its graph, and its books are in order.
    pub closed spec fn wf(&self) -> bool {
        &&& self.sound(self.status@)
        &&& in_step(*self.workload, self.offsets, self.status@)
    }

    /// The requests are in step with their graph.
    pub proof fn law_in_step(&self)
        requires
            self.wf(),
        ensures
            in_step(self.job(), self.times(), self.statuses()),
    {
    }

    fn link(workload: &W, n: usize) -> (result: Result<Vec<Vec<usize>>, CausalError>)
        requires
            n == workload.count(),
        ensures
            match result {
                Ok(successors) => graph_failure(*workload, n as nat) is None && closed_under(*workload, n as nat)
                    && successors@.len() == n && forall|j: int|
                    0 <= j < n ==> lists_successors(*workload, (#[trigger] successors@[j])@, j, n as int),
                Err(error) => graph_failure(*workload, n as nat) == Some(error),
            },
    {
        let mut successors: Vec<Vec<usize>> = Vec::with_capacity(n);
        let mut i: usize = 0;
        while i < n
            invariant
                i <= n,
                successors@.len() == i,
                forall|j: int| 0 <= j < i ==> (#[trigger] successors@[j])@.len() == 0,
            decreases n - i,
        {
            let empty: Vec<usize> = Vec::new();
            successors.push(empty);
            i += 1;
        }
        let mut ordinal: usize = 0;
        while ordinal < n
            invariant
                ordinal <= n,
                n == workload.count(),
                successors@.len() == n,
                graph_failure(*workload, ordinal as nat) is None,
                forall|a: int, b: int|
                    0 <= a < ordinal && 0 <= b < workload.waits_for(a).len() ==> (#[trigger] workload.waits_for(a)[b])
                        < n,
                forall|j: int|
                    0 <= j < n ==> lists_successors(*workload, (#[trigger] successors@[j])@, j, ordinal as int),
            decreases n - ordinal,
        {
            let dependencies = workload.dependencies(ordinal);
            let mut k: usize = 0;
            proof {
                assert forall|j: int| 0 <= j < n implies lists_more(
                    *workload,
                    (#[trigger] successors@[j])@,
                    j,
                    ordinal as int,
                    0,
                ) by {
                }
            }
            while k < dependencies.len()
                invariant
                    k <= dependencies@.len(),
                    ordinal < n,
                    n == workload.count(),
                    dependencies@ == workload.waits_for(ordinal as int),
                    successors@.len() == n,
                    graph_failure(*workload, ordinal as nat) is None,
                    first_missing(dependencies@, n as nat, k as nat) is None,
                    forall|b: int| 0 <= b < k ==> (#[trigger] dependencies@[b]) < n,
                    forall|j: int|
                        0 <= j < n ==> lists_more(
                            *workload,
                            (#[trigger] successors@[j])@,
                            j,
                            ordinal as int,
                            k as int,
                        ),
                decreases dependencies@.len() - k,
            {
                let dependency = dependencies[k];
                if dependency >= n {
                    proof {
                        assert(first_missing(dependencies@, n as nat, (k + 1) as nat) == Some(dependency));
                        lemma_missing_stands(dependencies@, n as nat, (k + 1) as nat, dependencies@.len());
                        assert(graph_failure(*workload, (ordinal + 1) as nat) is Some);
                        lemma_graph_failure_stands(*workload, (ordinal + 1) as nat, n as nat);
                    }
                    return Err(CausalError::MissingDependency { ordinal, dependency });
                }
                let ghost before = successors@;
                let ghost d = dependency as int;
                let mut list: Vec<usize> = Vec::new();
                std::mem::swap(&mut list, &mut successors[dependency]);
                let ghost held = list@;
                assert(held == before[d]@);
                let fresh = list.len() == 0 || list[list.len() - 1] != ordinal;
                if fresh {
                    list.push(ordinal);
                }
                let ghost after = list@;
                std::mem::swap(&mut list, &mut successors[dependency]);
                proof {
                    let head = dependencies@.take(k as int);
                    let next = dependencies@.take(k + 1);
                    assert(next =~= head.push(dependency));
                    assert(successors@[d]@ == after);
                    assert forall|j: int| 0 <= j < n implies lists_more(
                        *workload,
                        (#[trigger] successors@[j])@,
                        j,
                        ordinal as int,
                        k + 1,
                    ) by {
                        assert(lists_more(*workload, before[j]@, j, ordinal as int, k as int));
                        if j == d {
                            assert(next[k as int] == j as usize);
                            assert(next.contains(j as usize));
                            if head.contains(j as usize) {
                                assert(!fresh);
                                assert(after == held);
                            } else {
                                if !fresh {
                                    assert(held[held.len() - 1] < ordinal);
                                }
                                assert(after.drop_last() =~= held);
                            }
                        } else {
                            assert(successors@[j]@ == before[j]@);
                            if next.contains(j as usize) {
                                let p = next.index_of(j as usize);
                                assert(p < k);
                                assert(head[p] == j as usize);
                            }
                            if head.contains(j as usize) {
                                let p = head.index_of(j as usize);
                                assert(next[p] == j as usize);
                            }
                        }
                    }
                }
                k += 1;
            }
            proof {
                assert forall|j: int| 0 <= j < n implies lists_successors(
                    *workload,
                    (#[trigger] successors@[j])@,
                    j,
                    ordinal + 1,
                ) by {
                    lemma_lists_next(*workload, successors@[j]@, j, ordinal as int);
                }
                assert(graph_failure(*workload, (ordinal + 1) as nat) is None);
            }
            ordinal += 1;
        }
        Ok(successors)
    }

    /// Checks the graph, and queues the requests that wait for nothing.
    pub fn start(workload: &'a W, offsets: ScaledOffsets) -> (result: Result<Self, CausalError>)
        requires
            offsets.arrival_ns@.len() == workload.count(),
            offsets.delay_ns@.len() == workload.count(),
        ensures
            match result {
                Ok(scheduler) => start_failure(*workload, offsets) is None && scheduler.wf() && scheduler.job()
                    == *workload && scheduler.times() == offsets && scheduler.statuses() == Seq::new(
                    workload.count(),
                    |i: int| first_status(*workload, i),
                ),
                Err(error) => start_failure(*workload, offsets) == Some(error),
            },
    {
        broadcast use vstd::multiset::group_multiset_axioms;

        let n = workload.node_count();
        let successors = match Self::link(workload, n) {
            Ok(successors) => successors,
            Err(error) => return Err(error),
        };
        let mut status: Vec<NodeStatus> = Vec::with_capacity(n);
        let mut prepared: Vec<Option<PreparedRequest>> = Vec::with_capacity(n);
        let mut queue: ReadyQueue<usize> = ReadyQueue::with_capacity(n);
        let mut ordinal: usize = 0;
        while ordinal < n
            invariant
                ordinal <= n,
                n == workload.count(),
                offsets.arrival_ns@.len() == n,
                graph_failure(*workload, n as nat) is None,
                places_failure(*workload, offsets, ordinal as nat) is None,
                status@.len() == ordinal,
                prepared@.len() == ordinal,
                forall|i: int| 0 <= i < ordinal ==> #[trigger] status@[i] == first_status(*workload, i),
                forall|i: int|
                    0 <= i < ordinal ==> ((#[trigger] prepared@[i]) is Some <==> status@[i] is Queued),
                forall|i: int|
                    0 <= i < ordinal && (#[trigger] prepared@[i]) is Some ==> workload.plan(i) == Ok::<
                        PreparedView,
                        TokenError,
                    >(prepared@[i]->0@),
                forall|i: int|
                    0 <= i < ordinal && #[trigger] status@[i] is Queued ==> offsets.arrival_ns@[i] is Some,
                forall|item: ReadyItem<usize>| #[trigger]
                    queue@.count(item) == (if item.ordinal < ordinal && item.value == item.ordinal && status@[item.ordinal as int] is Queued
                        && item.ready_at_ns == offsets.arrival_ns@[item.ordinal as int]->0 {
                        1nat
                    } else {
                        0nat
                    }),
            decreases n - ordinal,
        {
            broadcast use vstd::multiset::group_multiset_axioms;

            let waits = workload.dependencies(ordinal).len() > 0;
            let arrival = workload.initial_arrival_ms(ordinal);
            let ghost queued = queue@;
            let mut failure: Option<CausalError> = None;
            if waits {
                if arrival.is_some() {
                    failure = Some(CausalError::SpareArrival { ordinal });
                } else {
                    status.push(NodeStatus::Waiting);
                    prepared.push(None);
                }
            } else if arrival.is_none() {
                failure = Some(CausalError::NoArrival { ordinal });
            } else {
                match workload.prepare(ordinal) {
                    Err(error) => {
                        failure = Some(CausalError::Preparation(error));
                    },
                    Ok(request) => match offsets.arrival_ns[ordinal] {
                        Some(at) => {
                            status.push(NodeStatus::Queued);
                            prepared.push(Some(request));
                            queue.push(at, ordinal, ordinal);
                        },
                        None => {
                            failure = Some(CausalError::OutOfRange);
                        },
                    },
                }
            }
            assert(failure == place_failure(*workload, offsets, ordinal as int));
            assert(places_failure(*workload, offsets, (ordinal + 1) as nat) == failure);
            if let Some(error) = failure {
                proof {
                    lemma_places_failure_stands(*workload, offsets, (ordinal + 1) as nat, n as nat);
                }
                return Err(error);
            }
            proof {
                assert forall|item: ReadyItem<usize>| #[trigger] queue@.count(item) == (if item.ordinal < ordinal + 1
                    && item.value == item.ordinal && status@[item.ordinal as int] is Queued && item.ready_at_ns
                    == offsets.arrival_ns@[item.ordinal as int]->0 {
                    1nat
                } else {
                    0nat
                }) by {
                    assert(queued.count(item) == (if item.ordinal < ordinal && item.value == item.ordinal
                        && status@[item.ordinal as int] is Queued && item.ready_at_ns
                        == offsets.arrival_ns@[item.ordinal as int]->0 {
                        1nat
                    } else {
                        0nat
                    }));
                }
            }
            ordinal += 1;
        }
        let scheduler = CausalScheduler {
            workload,
            offsets,
            successors,
            status,
            prepared,
            queue,
            in_flight: 0,
            completed: 0,
        };
        proof {
            let now = scheduler.status@;
            assert(now =~= Seq::new(workload.count(), |i: int| first_status(*workload, i)));
            lemma_first_counts(*workload, now, now.len());
            assert forall|i: int| 0 <= i < now.len() implies (#[trigger] now[i] is Waiting <==> !is_released(
                *workload,
                now,
                i,
            )) by {
                let dependencies = workload.waits_for(i);
                if dependencies.len() > 0 {
                    let d = dependencies[0] as int;
                    assert(workload.waits_for(i)[0] < now.len());
                    assert(now[d] == first_status(*workload, d));
                    if is_released(*workload, now, i) {
                        assert(is_done(now, dependencies[0] as int));
                    }
                }
            }
            assert forall|item: ReadyItem<usize>| #[trigger] scheduler.queue@.count(item) == (if is_queued(
                *workload,
                offsets,
                now,
                item,
            ) {
                1nat
            } else {
                0nat
            }) by {
                if item.ordinal < now.len() {
                    assert(now[item.ordinal as int] == first_status(*workload, item.ordinal as int));
                }
            }
            assert forall|i: int| 0 <= i < now.len() && #[trigger] now[i] is Queued implies 0 <= due(
                *workload,
                offsets,
                now,
                i,
            ) <= u64::MAX by {
                assert(now[i] == first_status(*workload, i));
            }
        }
        Ok(scheduler)
    }

    /// Tells what to do next.
    #[verifier::rlimit(20)]
    pub fn next_step(&self, now_ns: u64) -> (step: CausalStep)
        requires
            self.wf(),
        ensures
            is_step(self.job(), self.times(), self.statuses(), now_ns, step),
    {
        proof {
            lemma_counts(self.status@, self.status@.len());
        }
        match self.queue.next_ready_at_ns() {
            Some(at) => {
                proof {
                    self.lemma_earliest(at);
                }
                if now_ns >= at {
                    CausalStep::Dispatch
                } else if self.in_flight == 0 {
                    CausalStep::Sleep { until_ns: at }
                } else {
                    CausalStep::SleepOrComplete { until_ns: at }
                }
            },
            None => {
                proof {
                    self.lemma_none_queued();
                }
                if self.in_flight > 0 {
                    CausalStep::Complete
                } else {
                    CausalStep::Finish
                }
            },
        }
    }

    proof fn lemma_stands_in_queue(&self, i: int)
        requires
            self.sound(self.status@),
            0 <= i < self.status@.len(),
            self.status@[i] is Queued,
        ensures
            self.queue@.count(
                ReadyItem {
                    ready_at_ns: due(*self.workload, self.offsets, self.status@, i) as u64,
                    ordinal: i as usize,
                    value: i as usize,
                },
            ) == 1,
    {
        let item = ReadyItem {
            ready_at_ns: due(*self.workload, self.offsets, self.status@, i) as u64,
            ordinal: i as usize,
            value: i as usize,
        };
        assert(is_queued(*self.workload, self.offsets, self.status@, item));
    }

    proof fn lemma_earliest(&self, at: u64)
        requires
            self.sound(self.status@),
            exists|item: ReadyItem<usize>| #[trigger] self.queue@.count(item) > 0 && item.ready_at_ns == at,
            forall|item: ReadyItem<usize>| #[trigger] self.queue@.count(item) > 0 ==> at <= item.ready_at_ns,
        ensures
            is_earliest(*self.workload, self.offsets, self.status@, at),
    {
        let item = choose|item: ReadyItem<usize>| #[trigger]
            self.queue@.count(item) > 0 && item.ready_at_ns == at;
        assert(is_queued(*self.workload, self.offsets, self.status@, item));
        assert(self.status@[item.ordinal as int] is Queued);
        assert forall|i: int| 0 <= i < self.status@.len() && #[trigger] self.status@[i] is Queued implies at <= due(
            *self.workload,
            self.offsets,
            self.status@,
            i,
        ) by {
            self.lemma_stands_in_queue(i);
        }
    }

    proof fn lemma_none_queued(&self)
        requires
            self.sound(self.status@),
            self.queue@ == Multiset::<ReadyItem<usize>>::empty(),
        ensures
            none_queued(self.status@),
    {
        broadcast use vstd::multiset::group_multiset_axioms;

        assert forall|i: int| 0 <= i < self.status@.len() implies !(#[trigger] self.status@[i] is Queued) by {
            if self.status@[i] is Queued {
                self.lemma_stands_in_queue(i);
            }
        }
    }

    proof fn lemma_sent_keeps_the_books(&self, before: &Self, item: ReadyItem<usize>)
        requires
            before.wf(),
            before.queue@.count(item) == 1,
            *self.workload == *before.workload,
            self.offsets == before.offsets,
            self.successors == before.successors,
            self.status@ == before.status@.update(item.ordinal as int, NodeStatus::InFlight),
            self.prepared@ == before.prepared@.update(item.ordinal as int, None),
            before.queue@ == self.queue@.insert(item),
            self.in_flight == before.in_flight + 1,
            self.completed == before.completed,
        ensures
            self.wf(),
            same_done(before.status@, self.status@),
    {
        broadcast use vstd::multiset::group_multiset_axioms;

        let workload = *self.workload;
        let offsets = self.offsets;
        let first = before.status@;
        let now = self.status@;
        assert(is_queued(workload, offsets, first, item));
        lemma_counts_update(first, item.ordinal as int, NodeStatus::InFlight, first.len());
        assert(same_done(first, now));
        assert forall|i: int| 0 <= i < now.len() implies #[trigger] due(workload, offsets, now, i) == due(
            workload,
            offsets,
            first,
            i,
        ) by {
            lemma_same_done_step(workload, offsets, first, now, i);
        }
        assert forall|other: ReadyItem<usize>| #[trigger] self.queue@.count(other) == (if is_queued(
            workload,
            offsets,
            now,
            other,
        ) {
            1nat
        } else {
            0nat
        }) by {
            assert(before.queue@.count(other) == (if is_queued(workload, offsets, first, other) {
                1nat
            } else {
                0nat
            }));
            if other.ordinal < now.len() {
                assert(due(workload, offsets, now, other.ordinal as int) == due(
                    workload,
                    offsets,
                    first,
                    other.ordinal as int,
                ));
            }
            if other.ordinal == item.ordinal && is_queued(workload, offsets, first, other) {
                assert(other == item);
            }
        }
        assert forall|i: int| 0 <= i < now.len() && #[trigger] now[i] is Queued implies 0 <= due(
            workload,
            offsets,
            now,
            i,
        ) <= u64::MAX by {
            assert(first[i] is Queued);
            assert(due(workload, offsets, now, i) == due(workload, offsets, first, i));
        }
        assert forall|i: int| 0 <= i < now.len() implies (#[trigger] now[i] is Waiting <==> !is_released(
            workload,
            now,
            i,
        )) by {
            lemma_same_done_step(workload, offsets, first, now, i);
            assert(first[i] is Waiting <==> !is_released(workload, first, i));
        }
    }

    fn take_one(&mut self, now_ns: u64) -> (result: Option<DueRequest>)
        requires
            old(self).wf(),
        ensures
            final(self).wf(),
            final(self).job() == old(self).job(),
            final(self).times() == old(self).times(),
            match result {
                Some(request) => {
                    &&& handed_out(old(self).job(), old(self).times(), old(self).statuses(), now_ns, request)
                    &&& final(self).statuses() == old(self).statuses().update(
                        request.ordinal as int,
                        NodeStatus::InFlight,
                    )
                    &&& same_done(old(self).statuses(), final(self).statuses())
                    &&& comes_first(final(self).job(), final(self).times(), final(self).statuses(), request)
                },
                None => final(self).statuses() == old(self).statuses() && nothing_due(
                    old(self).job(),
                    old(self).times(),
                    old(self).statuses(),
                    now_ns,
                ),
            },
    {
        broadcast use vstd::multiset::group_multiset_axioms;

        let ghost before = *self;
        let ghost queued = self.queue@;
        let mut batch = self.queue.pop_due(now_ns, 1);
        let ghost popped = batch@;
        assert(releases(queued, now_ns, 1, popped, self.queue@));
        match batch.pop() {
            None => {
                proof {
                    popped.to_multiset_ensures();
                    assert(popped =~= Seq::<ReadyItem<usize>>::empty());
                    assert(popped.to_multiset() =~= Multiset::<ReadyItem<usize>>::empty());
                    assert(self.queue@ =~= queued);
                    assert forall|i: int| 0 <= i < before.status@.len() && #[trigger] before.status@[i] is Queued implies due(
                        *before.workload,
                        before.offsets,
                        before.status@,
                        i,
                    ) > now_ns by {
                        before.lemma_stands_in_queue(i);
                        let item = ReadyItem {
                            ready_at_ns: due(*before.workload, before.offsets, before.status@, i) as u64,
                            ordinal: i as usize,
                            value: i as usize,
                        };
                        assert(self.queue@.count(item) > 0);
                    }
                }
                None
            },
            Some(item) => {
                proof {
                    assert(popped =~= Seq::<ReadyItem<usize>>::empty().push(item));
                    Seq::<ReadyItem<usize>>::empty().to_multiset_ensures();
                    assert(Seq::<ReadyItem<usize>>::empty().to_multiset() =~= Multiset::empty());
                    assert(popped.to_multiset() =~= Multiset::singleton(item));
                    assert(queued =~= self.queue@.insert(item));
                    assert(queued.count(item) > 0);
                    assert(is_queued(*before.workload, before.offsets, before.status@, item));
                    assert(popped[0] == item);
                    lemma_counts_update(
                        before.status@,
                        item.ordinal as int,
                        NodeStatus::InFlight,
                        before.status@.len(),
                    );
                    lemma_counts(
                        before.status@.update(item.ordinal as int, NodeStatus::InFlight),
                        before.status@.len(),
                    );
                }
                let ordinal = item.ordinal;
                assert(before.prepared@[ordinal as int] is Some);
                let mut slot: Option<PreparedRequest> = None;
                std::mem::swap(&mut slot, &mut self.prepared[ordinal]);
                self.status.set(ordinal, NodeStatus::InFlight);
                self.in_flight = self.in_flight + 1;
                proof {
                    assert(self.prepared@ =~= before.prepared@.update(ordinal as int, None));
                    self.lemma_sent_keeps_the_books(&before, item);
                    assert forall|i: int| 0 <= i < self.status@.len() && #[trigger] self.status@[i] is Queued implies ranks_at(
                        item.ready_at_ns,
                        ordinal,
                        due(*self.workload, self.offsets, self.status@, i),
                        i,
                    ) by {
                        self.lemma_stands_in_queue(i);
                        let other = ReadyItem {
                            ready_at_ns: due(*self.workload, self.offsets, self.status@, i) as u64,
                            ordinal: i as usize,
                            value: i as usize,
                        };
                        assert(self.queue@.count(other) > 0);
                        assert(popped[0].ranks_before(other));
                    }
                }
                match slot {
                    Some(request) => Some(DueRequest { ready_at_ns: item.ready_at_ns, ordinal, request }),
                    None => None,
                }
            },
        }
    }

    /// Hands out the requests that are due, earliest first, and takes them for sent.
    pub fn take_due(&mut self, now_ns: u64) -> (requests: Vec<DueRequest>)
        requires
            old(self).wf(),
        ensures
            final(self).wf(),
            final(self).job() == old(self).job(),
            final(self).times() == old(self).times(),
            final(self).statuses() == dispatched(old(self).job(), old(self).times(), old(self).statuses(), now_ns),
            is_sorted(requests@),
            hands_out(old(self).job(), old(self).times(), old(self).statuses(), now_ns, requests@),
    {
        let ghost workload = self.job();
        let ghost offsets = self.times();
        let ghost first = self.statuses();
        let mut requests: Vec<DueRequest> = Vec::new();
        loop
            invariant
                self.wf(),
                self.job() == workload,
                self.times() == offsets,
                self.statuses().len() == first.len(),
                closed_under(workload, first.len()),
                same_done(first, self.statuses()),
                is_sorted(requests@),
                forall|k: int|
                    0 <= k < requests@.len() ==> handed_out(
                        workload,
                        offsets,
                        first,
                        now_ns,
                        #[trigger] requests@[k],
                    ),
                forall|k: int, l: int|
                    0 <= k < l < requests@.len() ==> (#[trigger] requests@[k]).ordinal != (
                    #[trigger] requests@[l]).ordinal,
                forall|k: int|
                    0 <= k < requests@.len() ==> self.statuses()[(#[trigger] requests@[k]).ordinal as int] is InFlight,
                forall|i: int|
                    0 <= i < first.len() ==> (#[trigger] self.statuses()[i]) == first[i] || (first[i] is Queued
                        && self.statuses()[i] is InFlight && is_among(requests@, i)),
                forall|k: int|
                    0 <= k < requests@.len() ==> comes_first(
                        workload,
                        offsets,
                        self.statuses(),
                        #[trigger] requests@[k],
                    ),
            ensures
                nothing_due(workload, offsets, self.statuses(), now_ns),
            decreases open_count(self.statuses(), first.len()),
        {
            let ghost before = self.statuses();
            let ghost handed = requests@;
            match self.take_one(now_ns) {
                None => {
                    break;
                },
                Some(request) => {
                    let ghost ordinal = request.ordinal as int;
                    proof {
                        let now = self.statuses();
                        lemma_same_done_chain(first, before, now);
                        lemma_same_done_step(workload, offsets, first, before, ordinal);
                        lemma_open_count_update(before, ordinal, NodeStatus::InFlight, first.len());
                        assert(before[ordinal] == first[ordinal]);
                        assert(handed_out(workload, offsets, first, now_ns, request));
                    }
                    requests.push(request);
                    proof {
                        let now = self.statuses();
                        assert(requests@ =~= handed.push(request));
                        assert forall|i: int| 0 <= i < first.len() implies (#[trigger] now[i]) == first[i] || (
                        first[i] is Queued && now[i] is InFlight && is_among(requests@, i)) by {
                            if i == ordinal {
                                assert(requests@[requests@.len() - 1].ordinal == i);
                            } else if before[i] != first[i] {
                                let k = choose|k: int| 0 <= k < handed.len() && (#[trigger] handed[k]).ordinal == i;
                                assert(requests@[k].ordinal == i);
                            }
                        }
                        assert forall|k: int| 0 <= k < requests@.len() implies comes_first(
                            workload,
                            offsets,
                            now,
                            #[trigger] requests@[k],
                        ) by {
                            if k < handed.len() {
                                assert(comes_first(workload, offsets, before, handed[k]));
                                assert forall|i: int| 0 <= i < now.len() && #[trigger] now[i] is Queued implies ranks_at(
                                    handed[k].ready_at_ns,
                                    handed[k].ordinal,
                                    due(workload, offsets, now, i),
                                    i,
                                ) by {
                                    assert(before[i] is Queued);
                                    lemma_same_done_step(workload, offsets, before, now, i);
                                }
                            }
                        }
                        assert forall|k: int, l: int| 0 <= k < l < requests@.len() implies (
                        #[trigger] requests@[k]).ranks_before(#[trigger] requests@[l]) by {
                            if l == handed.len() {
                                assert(comes_first(workload, offsets, before, handed[k]));
                                assert(before[ordinal] is Queued);
                            }
                        }
                        assert forall|k: int, l: int| 0 <= k < l < requests@.len() implies (
                        #[trigger] requests@[k]).ordinal != (#[trigger] requests@[l]).ordinal by {
                            if l == handed.len() {
                                assert(before[handed[k].ordinal as int] is InFlight);
                            }
                        }
                    }
                },
            }
        }
        proof {
            let now = self.statuses();
            assert forall|i: int| 0 <= i < now.len() implies #[trigger] now[i] == dispatched_status(
                workload,
                offsets,
                first,
                now_ns,
                i,
            ) by {
                lemma_same_done_step(workload, offsets, first, now, i);
                if first[i] is Queued && !(now[i] is Queued) {
                    let k = choose|k: int| 0 <= k < requests@.len() && (#[trigger] requests@[k]).ordinal == i;
                    assert(handed_out(workload, offsets, first, now_ns, requests@[k]));
                }
            }
            assert(now =~= dispatched(workload, offsets, first, now_ns));
            assert forall|i: int| 0 <= i < first.len() && #[trigger] first[i] is Queued && due(
                workload,
                offsets,
                first,
                i,
            ) <= now_ns implies exists|k: int| 0 <= k < requests@.len() && (#[trigger] requests@[k]).ordinal == i by {
                assert(now[i] == dispatched_status(workload, offsets, first, now_ns, i));
                assert(now[i] != first[i]);
                assert(is_among(requests@, i));
            }
        }
        requests
    }

    /// Takes a request in flight for completed.
    fn land(&mut self, ordinal: usize, completed_ns: u64)
        requires
            old(self).wf(),
            ordinal < old(self).status@.len(),
            old(self).status@[ordinal as int] is InFlight,
        ensures
            final(self).workload == old(self).workload,
            final(self).offsets == old(self).offsets,
            final(self).successors == old(self).successors,
            final(self).sound(old(self).status@.update(ordinal as int, NodeStatus::Done(completed_ns))),
            forall|i: int|
                0 <= i < old(self).status@.len() && (#[trigger] old(self).workload.waits_for(i)).contains(ordinal)
                    ==> old(self).status@[i] is Waiting,
            forall|i: int|
                0 <= i < old(self).status@.len() && #[trigger] newly_released(
                    *old(self).workload,
                    old(self).status@.update(ordinal as int, NodeStatus::Done(completed_ns)),
                    i,
                ) ==> old(self).workload.waits_for(i).contains(ordinal),
    {
        broadcast use vstd::multiset::group_multiset_axioms;

        let ghost workload = *self.workload;
        let ghost offsets = self.offsets;
        let ghost first = self.status@;
        let ghost n = first.len() as int;
        let ghost base = first.update(ordinal as int, NodeStatus::Done(completed_ns));
        proof {
            lemma_counts_update(first, ordinal as int, NodeStatus::Done(completed_ns), first.len());
            lemma_counts(base, base.len());
            lemma_counts(first, first.len());
            if flying(first, first.len()) == 0 {
                assert(!(first[ordinal as int] is InFlight));
            }
        }
        self.status.set(ordinal, NodeStatus::Done(completed_ns));
        self.in_flight = self.in_flight - 1;
        self.completed = self.completed + 1;
        proof {
            assert forall|i: int| 0 <= i < n && !(#[trigger] workload.waits_for(i)).contains(ordinal) implies due(
                workload,
                offsets,
                base,
                i,
            ) == due(workload, offsets, first, i) && is_released(workload, base, i) == is_released(
                workload,
                first,
                i,
            ) by {
                lemma_completion_frame(workload, offsets, first, ordinal as int, completed_ns, i);
            }
            assert forall|i: int| 0 <= i < n && (#[trigger] workload.waits_for(i)).contains(ordinal) implies first[i] is Waiting by {
                let k = workload.waits_for(i).index_of(ordinal);
                if is_released(workload, first, i) {
                    assert(is_done(first, workload.waits_for(i)[k] as int));
                }
                assert(first[i] is Waiting <==> !is_released(workload, first, i));
            }
            assert forall|item: ReadyItem<usize>| #[trigger] self.queue@.count(item) == (if is_queued(
                workload,
                offsets,
                base,
                item,
            ) {
                1nat
            } else {
                0nat
            }) by {
                if item.ordinal < n {
                    assert(workload.waits_for(item.ordinal as int).contains(ordinal) || !workload.waits_for(
                        item.ordinal as int,
                    ).contains(ordinal));
                }
            }
            assert forall|i: int| 0 <= i < n && #[trigger] base[i] is Queued implies 0 <= due(
                workload,
                offsets,
                base,
                i,
            ) <= u64::MAX by {
                assert(first[i] is Queued);
                assert(!workload.waits_for(i).contains(ordinal));
            }
            assert forall|i: int| 0 <= i < n && #[trigger] newly_released(workload, base, i) implies workload.waits_for(
                i,
            ).contains(ordinal) by {
                assert(first[i] is Waiting <==> !is_released(workload, first, i));
            }
        }
    }

    /// Puts a request that waits for nothing more in line.
    fn enqueue(&mut self, successor: usize, at: u64, request: PreparedRequest)
        requires
            old(self).sound(old(self).status@),
            successor < old(self).status@.len(),
            old(self).status@[successor as int] is Waiting,
            due(*old(self).workload, old(self).offsets, old(self).status@, successor as int) == at,
            old(self).workload.plan(successor as int) == Ok::<PreparedView, TokenError>(request@),
        ensures
            final(self).workload == old(self).workload,
            final(self).offsets == old(self).offsets,
            final(self).successors == old(self).successors,
            final(self).sound(old(self).status@.update(successor as int, NodeStatus::Queued)),
    {
        broadcast use vstd::multiset::group_multiset_axioms;

        let ghost workload = *self.workload;
        let ghost offsets = self.offsets;
        let ghost before = self.status@;
        let ghost n = before.len() as int;
        let ghost s = successor as int;
        let ghost queued = self.queue@;
        self.prepared.set(successor, Some(request));
        self.status.set(successor, NodeStatus::Queued);
        self.queue.push(at, successor, successor);
        proof {
            let now = self.status@;
            lemma_counts_update(before, s, NodeStatus::Queued, before.len());
            assert(same_done(before, now));
            assert forall|i: int| 0 <= i < n implies #[trigger] due(workload, offsets, now, i)
                == due(workload, offsets, before, i) by {
                lemma_same_done_step(workload, offsets, before, now, i);
            }
            let item = ReadyItem { ready_at_ns: at, ordinal: successor, value: successor };
            assert(due(workload, offsets, now, s) == at);
            assert forall|other: ReadyItem<usize>| #[trigger] self.queue@.count(other) == (
            if is_queued(workload, offsets, now, other) {
                1nat
            } else {
                0nat
            }) by {
                assert(queued.count(other) == (if is_queued(
                    workload,
                    offsets,
                    before,
                    other,
                ) {
                    1nat
                } else {
                    0nat
                }));
                if other.ordinal < n {
                    assert(due(workload, offsets, now, other.ordinal as int) == due(
                        workload,
                        offsets,
                        before,
                        other.ordinal as int,
                    ));
                }
                if other.ordinal == successor {
                    assert(before[s] is Waiting);
                    assert(!is_queued(workload, offsets, before, other));
                    if is_queued(workload, offsets, now, other) {
                        assert(other == item);
                    }
                }
            }
            assert forall|i: int| 0 <= i < n && #[trigger] now[i] is Queued implies 0 <= due(
                workload,
                offsets,
                now,
                i,
            ) <= u64::MAX by {
                assert(due(workload, offsets, now, i) == due(workload, offsets, before, i));
                if i != s {
                    assert(before[i] is Queued);
                }
            }
        }
    }

    /// Takes note that a request has completed, and queues what that releases.
    pub fn complete(&mut self, ordinal: usize, completed_ns: u64) -> (result: Result<Vec<usize>, CausalError>)
        requires
            old(self).wf(),
        ensures
            final(self).job() == old(self).job(),
            final(self).times() == old(self).times(),
            is_completion(
                old(self).job(),
                old(self).times(),
                old(self).statuses(),
                ordinal,
                completed_ns,
                result,
                final(self).statuses(),
            ),
            result is Ok ==> final(self).wf(),
            result == Err::<Vec<usize>, CausalError>(CausalError::ReleasedTwice { ordinal }) ==> final(self).wf(),
    {
        let ghost workload = *self.workload;
        let ghost offsets = self.offsets;
        let ghost first = self.status@;
        let n = self.status.len();
        let flies = ordinal < n && match self.status[ordinal] {
            NodeStatus::InFlight => true,
            _ => false,
        };
        if !flies {
            return Err(CausalError::ReleasedTwice { ordinal });
        }
        let ghost base = first.update(ordinal as int, NodeStatus::Done(completed_ns));
        self.land(ordinal, completed_ns);
        assert(partly(workload, base, 0) =~= base);
        let count = self.successors[ordinal].len();
        let ghost list = self.successors@[ordinal as int]@;
        assert(lists_successors(workload, list, ordinal as int, n as int));
        let mut released: Vec<usize> = Vec::new();
        let ghost mut bound: int = 0;
        let mut p: usize = 0;
        while p < count
            invariant
                p <= count,
                count == list.len(),
                n == first.len(),
                ordinal < n,
                list == self.successors@[ordinal as int]@,
                lists_successors(workload, list, ordinal as int, n as int),
                workload == *old(self).workload,
                offsets == old(self).offsets,
                first == old(self).status@,
                *self.workload == workload,
                self.offsets == offsets,
                base == first.update(ordinal as int, NodeStatus::Done(completed_ns)),
                closed_under(workload, n as nat),
                self.sound(partly(workload, base, bound)),
                0 <= bound <= n,
                p == 0 ==> bound == 0,
                p > 0 ==> bound == list[p - 1] + 1,
                forall|i: int| 0 <= i < n && #[trigger] newly_released(workload, base, i) ==> workload.waits_for(
                    i,
                ).contains(ordinal),
                forall|i: int|
                    0 <= i < n && (#[trigger] workload.waits_for(i)).contains(ordinal) ==> first[i] is Waiting,
                first[ordinal as int] is InFlight,
                released@ == release_list(workload, base, bound as nat),
                completion_failure(workload, offsets, base, bound as nat) is None,
            decreases count - p,
        {
            let successor = self.successors[ordinal][p];
            let ghost s = successor as int;
            let ghost before = self.status@;
            assert(before == partly(workload, base, bound));
            proof {
                assert(list[p as int] == successor);
                assert(workload.waits_for(s).contains(ordinal));
                assert forall|i: int| bound <= i < s implies !(#[trigger] newly_released(workload, base, i)) by {
                    if newly_released(workload, base, i) {
                        assert(workload.waits_for(i).contains(ordinal));
                        assert(list.contains(i as usize));
                        let q = list.index_of(i as usize);
                        if q < p {
                            if q < p - 1 {
                                assert(list[q] < list[p - 1]);
                            }
                        } else if q > p {
                            assert(list[p as int] < list[q]);
                        }
                    }
                }
                lemma_release_list_skips(workload, offsets, base, bound as nat, s as nat);
                assert(before =~= partly(workload, base, s));
                assert(same_done(base, before));
                lemma_same_done_step(workload, offsets, base, before, s);
                assert(first[s] is Waiting);
                assert(s != ordinal);
                assert(base[s] is Waiting);
            }
            let dependencies = self.workload.dependencies(successor);
            let mut latest_ns: u64 = 0;
            let mut open = false;
            let mut k: usize = 0;
            while k < dependencies.len()
                invariant
                    k <= dependencies@.len(),
                    dependencies@ == workload.waits_for(s),
                    *self.workload == workload,
                    self.status@ == before,
                    before.len() == n,
                    0 <= s < n,
                    closed_under(workload, n as nat),
                    latest_ns == latest(dependencies@, before, k as nat),
                    open == !have_completed(dependencies@, before, k as nat),
                decreases dependencies@.len() - k,
            {
                assert(workload.waits_for(s)[k as int] < n);
                proof {
                    lemma_completed_step(dependencies@, before, (k + 1) as nat);
                }
                match self.status[dependencies[k]] {
                    NodeStatus::Done(at) => {
                        if at > latest_ns {
                            latest_ns = at;
                        }
                    },
                    _ => {
                        open = true;
                    },
                }
                k += 1;
            }
            assert(open == !newly_released(workload, base, s));
            if !open {
                let mut failure: Option<CausalError> = None;
                match self.offsets.delay_ns[successor] {
                    None => {
                        failure = Some(CausalError::OutOfRange);
                    },
                    Some(delay) => match self.workload.prepare(successor) {
                        Err(error) => {
                            failure = Some(CausalError::Preparation(error));
                        },
                        Ok(request) => match latest_ns.checked_add(delay) {
                            None => {
                                failure = Some(CausalError::Overflow);
                            },
                            Some(at) => {
                                self.enqueue(successor, at, request);
                                released.push(successor);
                                assert(self.status@ =~= partly(workload, base, s + 1));
                            },
                        },
                    },
                }
                assert(failure == release_failure(workload, offsets, base, s));
                assert(completion_failure(workload, offsets, base, (s + 1) as nat) == failure);
                if let Some(error) = failure {
                    proof {
                        lemma_failure_stands(workload, offsets, base, s as nat, n as nat);
                    }
                    return Err(error);
                }
            } else {
                assert(before =~= partly(workload, base, s + 1));
            }
            proof {
                bound = s + 1;
            }
            p += 1;
        }
        proof {
            assert forall|i: int| bound <= i < n implies !(#[trigger] newly_released(workload, base, i)) by {
                if newly_released(workload, base, i) {
                    assert(workload.waits_for(i).contains(ordinal));
                    assert(list.contains(i as usize));
                    let q = list.index_of(i as usize);
                    if q < count - 1 {
                        assert(list[q] < list[count - 1]);
                    }
                }
            }
            lemma_release_list_skips(workload, offsets, base, bound as nat, n as nat);
            let now = self.status@;
            assert(now =~= advanced(workload, base));
            assert(same_done(base, now));
            assert forall|i: int| 0 <= i < n implies (#[trigger] now[i] is Waiting <==> !is_released(
                workload,
                now,
                i,
            )) by {
                lemma_same_done_step(workload, offsets, base, now, i);
                assert(first[i] is Waiting <==> !is_released(workload, first, i));
                if i == ordinal {
                    if workload.waits_for(i).contains(ordinal) {
                        assert(first[i] is Waiting);
                    }
                } else if !(base[i] is Waiting) {
                    if workload.waits_for(i).contains(ordinal) {
                        assert(first[i] is Waiting);
                    }
                    lemma_completion_frame(workload, offsets, first, ordinal as int, completed_ns, i);
                }
            }
        }
        Ok(released)
    }

    /// Tells whether everything has completed.
    pub fn finish(&self) -> (result: Result<(), CausalError>)
        requires
            self.wf(),
        ensures
            match result {
                Ok(()) => forall|i: int| 0 <= i < self.statuses().len() ==> #[trigger] self.statuses()[i] is Done,
                Err(error) => landed(self.statuses(), self.statuses().len()) < self.statuses().len() && error
                    == (CausalError::Stalled {
                    completed: landed(self.statuses(), self.statuses().len()) as usize,
                    total: self.statuses().len() as usize,
                }),
            },
    {
        let total = self.status.len();
        proof {
            lemma_counts(self.status@, self.status@.len());
        }
        if self.completed != total {
            return Err(CausalError::Stalled { completed: self.completed, total });
        }
        Ok(())
    }
}

spec fn ranks_at(ready_at_ns: u64, ordinal: usize, other_ns: int, other: int) -> bool {
    ready_at_ns < other_ns || (ready_at_ns == other_ns && ordinal <= other)
}

spec fn comes_first<W: CausalWorkload>(
    workload: W,
    offsets: ScaledOffsets,
    status: Seq<NodeStatus>,
    request: DueRequest,
) -> bool {
    forall|i: int|
        0 <= i < status.len() && #[trigger] status[i] is Queued ==> ranks_at(
            request.ready_at_ns,
            request.ordinal,
            due(workload, offsets, status, i),
            i,
        )
}

spec fn nothing_due<W: CausalWorkload>(
    workload: W,
    offsets: ScaledOffsets,
    status: Seq<NodeStatus>,
    now_ns: u64,
) -> bool {
    forall|i: int|
        0 <= i < status.len() && #[trigger] status[i] is Queued ==> due(workload, offsets, status, i) > now_ns
}

spec fn is_among(requests: Seq<DueRequest>, i: int) -> bool {
    exists|k: int| 0 <= k < requests.len() && (#[trigger] requests[k]).ordinal == i
}

spec fn open_count(status: Seq<NodeStatus>, n: nat) -> nat
    decreases n,
{
    if n == 0 {
        0
    } else {
        open_count(status, (n - 1) as nat) + if status[n - 1] is Queued {
            1nat
        } else {
            0nat
        }
    }
}

proof fn lemma_open_count_update(status: Seq<NodeStatus>, i: int, value: NodeStatus, n: nat)
    requires
        0 <= i < status.len(),
        n <= status.len(),
        status[i] is Queued,
        !(value is Queued),
    ensures
        open_count(status.update(i, value), n) == open_count(status, n) - (if i < n {
            1int
        } else {
            0
        }),
    decreases n,
{
    if n > 0 {
        lemma_open_count_update(status, i, value, (n - 1) as nat);
    }
}

proof fn lemma_same_done_chain(a: Seq<NodeStatus>, b: Seq<NodeStatus>, c: Seq<NodeStatus>)
    requires
        same_done(a, b),
        same_done(b, c),
    ensures
        same_done(a, c),
{
    assert forall|i: int| 0 <= i < a.len() implies (#[trigger] a[i] is Done <==> c[i] is Done) by {
        assert(b[i] is Done <==> c[i] is Done);
    }
    assert forall|i: int| 0 <= i < a.len() && #[trigger] a[i] is Done implies a[i] == c[i] by {
        assert(b[i] is Done);
    }
}

/// `step` is what to do next: dispatch what is due, else sleep up to the earliest time in the
/// queue, else wait for a completion, else stop.
pub open spec fn is_step<W: CausalWorkload>(
    workload: W,
    offsets: ScaledOffsets,
    status: Seq<NodeStatus>,
    now_ns: u64,
    step: CausalStep,
) -> bool {
    match step {
        CausalStep::Dispatch => exists|i: int|
            0 <= i < status.len() && #[trigger] status[i] is Queued && due(workload, offsets, status, i) <= now_ns,
        CausalStep::Sleep { until_ns } => is_earliest(workload, offsets, status, until_ns) && until_ns > now_ns
            && flying(status, status.len()) == 0,
        CausalStep::SleepOrComplete { until_ns } => is_earliest(workload, offsets, status, until_ns) && until_ns
            > now_ns && flying(status, status.len()) > 0,
        CausalStep::Complete => none_queued(status) && flying(status, status.len()) > 0,
        CausalStep::Finish => none_queued(status) && flying(status, status.len()) == 0,
    }
}

/// Nothing is queued.
pub open spec fn none_queued(status: Seq<NodeStatus>) -> bool {
    forall|i: int| 0 <= i < status.len() ==> !(#[trigger] status[i] is Queued)
}

/// `at_ns` is the earliest time in the queue.
pub open spec fn is_earliest<W: CausalWorkload>(
    workload: W,
    offsets: ScaledOffsets,
    status: Seq<NodeStatus>,
    at_ns: u64,
) -> bool {
    &&& exists|i: int|
        0 <= i < status.len() && #[trigger] status[i] is Queued && due(workload, offsets, status, i) == at_ns
    &&& forall|i: int|
        0 <= i < status.len() && #[trigger] status[i] is Queued ==> at_ns <= due(workload, offsets, status, i)
}

/// Where a request stands once what is due has been handed out.
pub open spec fn dispatched_status<W: CausalWorkload>(
    workload: W,
    offsets: ScaledOffsets,
    status: Seq<NodeStatus>,
    now_ns: u64,
    i: int,
) -> NodeStatus {
    if status[i] is Queued && due(workload, offsets, status, i) <= now_ns {
        NodeStatus::InFlight
    } else {
        status[i]
    }
}

/// Where the requests stand once what is due has been handed out.
pub open spec fn dispatched<W: CausalWorkload>(
    workload: W,
    offsets: ScaledOffsets,
    status: Seq<NodeStatus>,
    now_ns: u64,
) -> Seq<NodeStatus> {
    Seq::new(status.len(), |i: int| dispatched_status(workload, offsets, status, now_ns, i))
}

/// `request` is one that is due, as it is to be sent.
pub open spec fn handed_out<W: CausalWorkload>(
    workload: W,
    offsets: ScaledOffsets,
    status: Seq<NodeStatus>,
    now_ns: u64,
    request: DueRequest,
) -> bool {
    let i = request.ordinal as int;
    &&& i < status.len()
    &&& status[i] is Queued
    &&& request.ready_at_ns == due(workload, offsets, status, i)
    &&& request.ready_at_ns <= now_ns
    &&& workload.plan(i) == Ok::<PreparedView, TokenError>(request.request@)
}

/// `requests` are all that is due, each once.
pub open spec fn hands_out<W: CausalWorkload>(
    workload: W,
    offsets: ScaledOffsets,
    status: Seq<NodeStatus>,
    now_ns: u64,
    requests: Seq<DueRequest>,
) -> bool {
    &&& forall|k: int|
        0 <= k < requests.len() ==> handed_out(workload, offsets, status, now_ns, #[trigger] requests[k])
    &&& forall|k: int, l: int|
        0 <= k < l < requests.len() ==> (#[trigger] requests[k]).ordinal != (#[trigger] requests[l]).ordinal
    &&& forall|i: int|
        0 <= i < status.len() && #[trigger] status[i] is Queued && due(workload, offsets, status, i) <= now_ns
            ==> exists|k: int| 0 <= k < requests.len() && (#[trigger] requests[k]).ordinal == i
}

/// What completing a request gives. A request that is not in flight changes nothing.
pub open spec fn is_completion<W: CausalWorkload>(
    workload: W,
    offsets: ScaledOffsets,
    status: Seq<NodeStatus>,
    ordinal: usize,
    completed_ns: u64,
    result: Result<Vec<usize>, CausalError>,
    after: Seq<NodeStatus>,
) -> bool {
    if ordinal >= status.len() || !(status[ordinal as int] is InFlight) {
        after == status && result == Err::<Vec<usize>, CausalError>(CausalError::ReleasedTwice { ordinal })
    } else {
        let base = status.update(ordinal as int, NodeStatus::Done(completed_ns));
        let n = status.len();
        match result {
            Ok(released) => completion_failure(workload, offsets, base, n) is None && released@ == release_list(
                workload,
                base,
                n,
            ) && after == advanced(workload, base),
            Err(error) => completion_failure(workload, offsets, base, n) == Some(error) && after == partly(
                workload,
                base,
                first_refused(workload, offsets, base, n) as int,
            ),
        }
    }
}

} // verus!
