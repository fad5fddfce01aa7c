//! Open-loop scheduling: requests leave at their recorded times, or once a slot is free.

use crate::contracts::TraceRequest;
use crate::replay::options::ReplayOptions;
use crate::replay::request::{prepare_request, preparation, PreparedRequest, PreparedView, RequestExecution};
use crate::replay::result::{is_shell, DispatchTimes, RequestResult};
use crate::replay::workload::captured_execution;
use crate::token_shape::dictionary::TokenDictionary;
use crate::token_shape::error::TokenError;
use std::collections::VecDeque;
use vstd::prelude::*;

verus! {

/// Why a run cannot go on.
#[derive(Debug)]
pub enum RecordedError {
    OutOfRange,
    ZeroOutput { request_id: String },
    Preparation(TokenError),
    OutOfOrder,
}

impl RecordedError {
    /// The message.
    pub open spec fn text(self) -> Seq<char> {
        match self {
            RecordedError::OutOfRange => "scaled replay timestamp is outside the u64 nanosecond range"@,
            RecordedError::ZeroOutput { request_id } => "request "@ + request_id@ + " has zero output tokens"@,
            RecordedError::Preparation(error) => error.text(),
            RecordedError::OutOfOrder => "the trace request stream is not ordered by timestamp and ordinal"@,
        }
    }

    /// The message.
    pub fn message(&self) -> (text: String)
        ensures
            text@ == self.text(),
    {
        match self {
            RecordedError::OutOfRange => {
                "scaled replay timestamp is outside the u64 nanosecond range".to_string()
            },
            RecordedError::ZeroOutput { request_id } => {
                let mut text = "request ".to_string();
                text.append(request_id.as_str());
                text.append(" has zero output tokens");
                text
            },
            RecordedError::Preparation(error) => error.message(),
            RecordedError::OutOfOrder => {
                "the trace request stream is not ordered by timestamp and ordinal".to_string()
            },
        }
    }
}

/// A request of the stream that is not prepared yet, with its time in the replay; nothing where
/// that is outside the range of nanoseconds.
#[derive(Debug)]
pub struct PendingRequest {
    pub request: TraceRequest,
    pub ready_at_ns: Option<u64>,
}

/// A prepared request with its time in the replay.
#[derive(Debug)]
pub struct ScheduledRequest {
    pub ready_at_ns: u64,
    pub request: PreparedRequest,
}

/// A request whose time has come.
#[derive(Debug)]
pub struct ReadyRequest {
    /// When the scheduler took it up.
    pub woken_at_ns: u64,
    pub scheduled: ScheduledRequest,
}

/// What to do next.
#[derive(Debug, Clone, Copy, PartialEq, Eq, Structural)]
pub enum RecordedStep {
    /// Send a request: one is ready and a slot is free.
    Dispatch,
    /// Sleep up to this time; nothing is in flight.
    Sleep { until_ns: u64 },
    /// Sleep up to this time, or until a request completes.
    SleepOrComplete { until_ns: u64 },
    /// Wait for a request to complete.
    Complete,
    /// Nothing is left to do.
    Finish,
}

/// Settings that hold throughout a run.
pub struct RecordedRun<'a> {
    pub dictionary: &'a TokenDictionary,
    pub run_id: &'a str,
    pub options: &'a ReplayOptions,
    pub lookahead_ns: u64,
}

/// The time and the ordinal of a scheduled request.
pub open spec fn place(scheduled: ScheduledRequest) -> (u64, usize) {
    (scheduled.ready_at_ns, scheduled.request.metadata.ordinal)
}

/// One place comes at or before another.
pub open spec fn at_or_before(a: (u64, usize), b: (u64, usize)) -> bool {
    a.0 < b.0 || (a.0 == b.0 && a.1 <= b.1)
}

/// The schedule is in order.
pub open spec fn in_time_order(schedule: Seq<ScheduledRequest>) -> bool {
    forall|i: int, j: int|
        0 <= i < j < schedule.len() ==> at_or_before(place(#[trigger] schedule[i]), place(#[trigger] schedule[j]))
}

/// What preparing a recorded request gives.
pub open spec fn recorded_plan(run: RecordedRun, request: TraceRequest) -> Result<PreparedView, TokenError> {
    preparation(run.run_id@, *run.options, *run.dictionary, request, captured_execution(request))
}

/// Why the pending request cannot join the schedule.
pub open spec fn join_failure(
    run: RecordedRun,
    schedule: Seq<ScheduledRequest>,
    request: TraceRequest,
    ready_at_ns: u64,
) -> Option<RecordedError> {
    if request.output_tokens == 0 {
        Some(RecordedError::ZeroOutput { request_id: request.source_request_id })
    } else {
        match recorded_plan(run, request) {
            Err(error) => Some(RecordedError::Preparation(error)),
            Ok(_) => if schedule.len() > 0 && !at_or_before(
                place(schedule.last()),
                (ready_at_ns, request.ordinal),
            ) {
                Some(RecordedError::OutOfOrder)
            } else {
                None
            },
        }
    }
}

/// What preparing ahead does: `more` tells whether the pending request has joined the schedule,
/// so that the stream is to be asked for another.
pub open spec fn is_preparation(
    run: RecordedRun,
    pending: Option<PendingRequest>,
    schedule: Seq<ScheduledRequest>,
    horizon_ns: u64,
    result: Result<bool, RecordedError>,
    pending_after: Option<PendingRequest>,
    after: Seq<ScheduledRequest>,
) -> bool {
    match pending {
        None => result == Ok::<bool, RecordedError>(false) && pending_after == pending && after == schedule,
        Some(waiting) => match waiting.ready_at_ns {
            None => result == Err::<bool, RecordedError>(RecordedError::OutOfRange) && pending_after == pending
                && after == schedule,
            Some(ready_at_ns) => if ready_at_ns > horizon_ns {
                result == Ok::<bool, RecordedError>(false) && pending_after == pending && after == schedule
            } else {
                pending_after is None && match join_failure(run, schedule, waiting.request, ready_at_ns) {
                    Some(error) => result == Err::<bool, RecordedError>(error) && after == schedule,
                    None => {
                        &&& result == Ok::<bool, RecordedError>(true)
                        &&& after.len() == schedule.len() + 1
                        &&& after.drop_last() == schedule
                        &&& after.last().ready_at_ns == ready_at_ns
                        &&& recorded_plan(run, waiting.request) == Ok::<PreparedView, TokenError>(
                            after.last().request@,
                        )
                    },
                }
            },
        },
    }
}

/// When to look at the pending request again: the lookahead before its time; at once where it has
/// none, and is to be refused.
pub open spec fn next_preparation(pending: Option<PendingRequest>, lookahead_ns: u64) -> Option<u64> {
    match pending {
        Some(waiting) => match waiting.ready_at_ns {
            Some(ready_at_ns) => Some(
                if ready_at_ns > lookahead_ns {
                    (ready_at_ns - lookahead_ns) as u64
                } else {
                    0
                },
            ),
            None => Some(0),
        },
        None => None,
    }
}

/// The earlier of two times.
pub open spec fn earlier(a: Option<u64>, b: Option<u64>) -> Option<u64> {
    match (a, b) {
        (Some(x), Some(y)) => Some(
            if x <= y {
                x
            } else {
                y
            },
        ),
        (Some(x), None) => Some(x),
        (None, y) => y,
    }
}

/// When something is to be done again: the next preparation or the next dispatch.
pub open spec fn next_wake(
    pending: Option<PendingRequest>,
    schedule: Seq<ScheduledRequest>,
    lookahead_ns: u64,
) -> Option<u64> {
    earlier(
        next_preparation(pending, lookahead_ns),
        if schedule.len() > 0 {
            Some(schedule[0].ready_at_ns)
        } else {
            None
        },
    )
}

/// The requests of a list, without the times at which they were taken up.
pub open spec fn requests_of(ready: Seq<ReadyRequest>) -> Seq<ScheduledRequest> {
    Seq::new(ready.len(), |i: int| ready[i].scheduled)
}

/// The requests of a list, all taken up at one time.
pub open spec fn woken(schedule: Seq<ScheduledRequest>, now_ns: u64) -> Seq<ReadyRequest> {
    Seq::new(schedule.len(), |i: int| ReadyRequest { woken_at_ns: now_ns, scheduled: schedule[i] })
}

/// How many requests at the front of a schedule are due.
pub open spec fn due_count(schedule: Seq<ScheduledRequest>, now_ns: u64) -> nat
    decreases schedule.len(),
{
    if schedule.len() > 0 && schedule[0].ready_at_ns <= now_ns {
        1 + due_count(schedule.drop_first(), now_ns)
    } else {
        0
    }
}

/// Mathematical view of a [`RecordedScheduler`].
#[verifier::ext_equal]
pub struct RecordedView {
    /// The request that waits to be prepared.
    pub waiting: Option<PendingRequest>,
    /// The requests that wait for their time.
    pub scheduled: Seq<ScheduledRequest>,
    /// The requests that wait for a slot.
    pub ready: Seq<ReadyRequest>,
    /// How many requests are in flight.
    pub flying: nat,
    /// How many requests may be in flight.
    pub slots: nat,
    /// All requests that were prepared.
    pub joined: Seq<ScheduledRequest>,
    /// All requests that were handed out.
    pub sent: Seq<ReadyRequest>,
    /// How many of them have a result.
    pub answered: nat,
}

impl RecordedView {
    /// Every prepared request was handed out, waits for a slot or waits for its time, in this order
    /// and once; every one that was handed out is in flight or has a result; no more are in flight
    /// than there are slots.
    pub open spec fn balanced(self) -> bool {
        &&& in_time_order(self.scheduled)
        &&& self.joined == requests_of(self.sent) + requests_of(self.ready) + self.scheduled
        &&& self.sent.len() == self.flying + self.answered
        &&& self.flying <= self.slots
        &&& self.slots > 0
    }

    /// A request is ready and a slot is free.
    pub open spec fn can_send(self) -> bool {
        self.ready.len() > 0 && self.flying < self.slots
    }

    /// What to do next.
    pub open spec fn step(self, lookahead_ns: u64) -> RecordedStep {
        if self.can_send() {
            RecordedStep::Dispatch
        } else {
            match next_wake(self.waiting, self.scheduled, lookahead_ns) {
                Some(until_ns) => if self.flying > 0 {
                    RecordedStep::SleepOrComplete { until_ns }
                } else {
                    RecordedStep::Sleep { until_ns }
                },
                None => if self.flying > 0 {
                    RecordedStep::Complete
                } else {
                    RecordedStep::Finish
                },
            }
        }
    }
}

/// Runs a recorded stream: prepares a little ahead of time, and sends on time while slots are free.
pub struct RecordedScheduler {
    pending: Option<PendingRequest>,
    schedule: VecDeque<ScheduledRequest>,
    ready: VecDeque<ReadyRequest>,
    in_flight: usize,
    slots: usize,
    joined: Ghost<Seq<ScheduledRequest>>,
    sent: Ghost<Seq<ReadyRequest>>,
    answered: Ghost<nat>,
}

impl View for RecordedScheduler {
    type V = RecordedView;

    closed spec fn view(&self) -> RecordedView {
        RecordedView {
            waiting: self.pending,
            scheduled: self.schedule@,
            ready: self.ready@,
            flying: self.in_flight as nat,
            slots: self.slots as nat,
            joined: self.joined@,
            sent: self.sent@,
            answered: self.answered@,
        }
    }
}

impl RecordedScheduler {
    /// Starts with the first request of the stream.
    pub fn new(first: Option<PendingRequest>, max_in_flight: usize) -> (scheduler: Self)
        requires
            max_in_flight > 0,
        ensures
            scheduler@.balanced(),
            scheduler@ == (RecordedView {
                waiting: first,
                scheduled: Seq::empty(),
                ready: Seq::empty(),
                flying: 0,
                slots: max_in_flight as nat,
                joined: Seq::empty(),
                sent: Seq::empty(),
                answered: 0,
            }),
    {
        let scheduler = RecordedScheduler {
            pending: first,
            schedule: VecDeque::new(),
            ready: VecDeque::new(),
            in_flight: 0,
            slots: max_in_flight,
            joined: Ghost(Seq::empty()),
            sent: Ghost(Seq::empty()),
            answered: Ghost(0),
        };
        assert(scheduler@.joined =~= requests_of(scheduler@.sent) + requests_of(scheduler@.ready)
            + scheduler@.scheduled);
        scheduler
    }

    /// Takes the next request of the stream; nothing at its end.
    pub fn offer(&mut self, next: Option<PendingRequest>)
        ensures
            final(self)@ == (RecordedView { waiting: next, ..old(self)@ }),
            old(self)@.balanced() ==> final(self)@.balanced(),
    {
        self.pending = next;
    }

    /// Prepares the pending request where its time lies within the horizon.
    pub fn prepare_next(&mut self, run: &RecordedRun, horizon_ns: u64) -> (result: Result<bool, RecordedError>)
        requires
            old(self)@.balanced(),
        ensures
            final(self)@.balanced(),
            is_preparation(
                *run,
                old(self)@.waiting,
                old(self)@.scheduled,
                horizon_ns,
                result,
                final(self)@.waiting,
                final(self)@.scheduled,
            ),
            final(self)@ == (RecordedView {
                waiting: final(self)@.waiting,
                scheduled: final(self)@.scheduled,
                joined: if result == Ok::<bool, RecordedError>(true) {
                    old(self)@.joined.push(final(self)@.scheduled.last())
                } else {
                    old(self)@.joined
                },
                ..old(self)@
            }),
    {
        let ready_at_ns = match &self.pending {
            None => return Ok(false),
            Some(waiting) => match waiting.ready_at_ns {
                None => return Err(RecordedError::OutOfRange),
                Some(at) => at,
            },
        };
        if ready_at_ns > horizon_ns {
            return Ok(false);
        }
        let mut taken: Option<PendingRequest> = None;
        std::mem::swap(&mut taken, &mut self.pending);
        let request = match taken {
            Some(waiting) => waiting.request,
            None => return Ok(false),
        };
        let ordinal = request.ordinal;
        if request.output_tokens == 0 {
            return Err(RecordedError::ZeroOutput { request_id: request.source_request_id });
        }
        let execution = RequestExecution {
            output_budget_tokens: Some(request.output_tokens),
            compaction_attempt: None,
        };
        let prepared = match prepare_request(run.run_id, run.options, run.dictionary, request, execution) {
            Ok(prepared) => prepared,
            Err(error) => return Err(RecordedError::Preparation(error)),
        };
        let count = self.schedule.len();
        if count > 0 {
            let previous = &self.schedule[count - 1];
            let previous_ns = previous.ready_at_ns;
            let previous_ordinal = previous.request.metadata.ordinal;
            if previous_ns > ready_at_ns || (previous_ns == ready_at_ns && previous_ordinal > ordinal) {
                return Err(RecordedError::OutOfOrder);
            }
        }
        let ghost before = self.schedule@;
        let fresh = ScheduledRequest { ready_at_ns, request: prepared };
        assert(fresh.request@.metadata.ordinal == ordinal);
        self.joined = Ghost(self.joined@.push(fresh));
        self.schedule.push_back(fresh);
        proof {
            assert(self.schedule@.drop_last() =~= before);
            assert forall|i: int, j: int| 0 <= i < j < self.schedule@.len() implies at_or_before(
                place(#[trigger] self.schedule@[i]),
                place(#[trigger] self.schedule@[j]),
            ) by {
                if j == before.len() {
                    let last = before.len() - 1;
                    if i < last {
                        assert(at_or_before(place(before[i]), place(before[last])));
                    }
                }
            }
            assert(self@.joined =~= requests_of(self@.sent) + requests_of(self@.ready) + self@.scheduled);
        }
        Ok(true)
    }

    /// Takes up the requests that are due. They are ready then, and wait for a slot.
    pub fn wake(&mut self, now_ns: u64)
        requires
            old(self)@.balanced(),
        ensures
            final(self)@.balanced(),
            ({
                let n = due_count(old(self)@.scheduled, now_ns) as int;
                &&& n <= old(self)@.scheduled.len()
                &&& final(self)@ == (RecordedView {
                    scheduled: old(self)@.scheduled.skip(n),
                    ready: old(self)@.ready + woken(old(self)@.scheduled.take(n), now_ns),
                    ..old(self)@
                })
            }),
            forall|i: int|
                0 <= i < final(self)@.scheduled.len() ==> (#[trigger] final(self)@.scheduled[i]).ready_at_ns > now_ns,
    {
        let ghost mut n: int = 0;
        let ghost all = self.schedule@;
        proof {
            assert(all.skip(0) =~= all);
            assert(self@.ready =~= old(self)@.ready + woken(all.take(0), now_ns));
        }
        while self.schedule.len() > 0 && self.schedule[0].ready_at_ns <= now_ns
            invariant
                0 <= n <= all.len(),
                all == old(self)@.scheduled,
                in_time_order(all),
                due_count(all, now_ns) == n + due_count(self.schedule@, now_ns),
                self@.scheduled == all.skip(n),
                self@.ready == old(self)@.ready + woken(all.take(n), now_ns),
                self@ == (RecordedView { scheduled: self@.scheduled, ready: self@.ready, ..old(self)@ }),
            decreases self.schedule@.len(),
        {
            let ghost before = self.schedule@;
            if let Some(scheduled) = self.schedule.pop_front() {
                self.ready.push_back(ReadyRequest { woken_at_ns: now_ns, scheduled });
                proof {
                    assert(scheduled == all[n]);
                    assert(self.schedule@ =~= before.drop_first());
                    assert(self.schedule@ =~= all.skip(n + 1));
                    assert(all.take(n + 1) =~= all.take(n).push(all[n]));
                    assert(self.ready@ =~= old(self)@.ready + woken(all.take(n + 1), now_ns));
                    n = n + 1;
                }
            }
        }
        proof {
            let rest = self.schedule@;
            assert forall|i: int| 0 <= i < rest.len() implies (#[trigger] rest[i]).ready_at_ns > now_ns by {
                if i > 0 {
                    assert(at_or_before(place(all[n]), place(all[n + i])));
                }
            }
            assert forall|i: int, j: int| 0 <= i < j < rest.len() implies at_or_before(
                place(#[trigger] rest[i]),
                place(#[trigger] rest[j]),
            ) by {
                assert(at_or_before(place(all[n + i]), place(all[n + j])));
            }
            assert(requests_of(self@.ready) =~= requests_of(old(self)@.ready) + all.take(n));
            assert(self@.joined =~= requests_of(self@.sent) + requests_of(self@.ready) + self@.scheduled);
        }
    }

    /// Hands out the first request that is ready, where a slot is free. Where none is, it stays.
    pub fn take_ready(&mut self) -> (result: Option<ReadyRequest>)
        requires
            old(self)@.balanced(),
        ensures
            final(self)@.balanced(),
            match result {
                Some(request) => {
                    &&& old(self)@.can_send()
                    &&& request == old(self)@.ready[0]
                    &&& final(self)@ == (RecordedView {
                        ready: old(self)@.ready.drop_first(),
                        flying: old(self)@.flying + 1,
                        sent: old(self)@.sent.push(request),
                        ..old(self)@
                    })
                },
                None => !old(self)@.can_send() && final(self)@ == old(self)@,
            },
    {
        if self.in_flight >= self.slots {
            return None;
        }
        let ghost before = self.ready@;
        match self.ready.pop_front() {
            None => None,
            Some(request) => {
                self.in_flight = self.in_flight + 1;
                self.sent = Ghost(self.sent@.push(request));
                proof {
                    assert(self.ready@ =~= before.drop_first());
                    assert(requests_of(self@.sent) =~= requests_of(old(self)@.sent).push(before[0].scheduled));
                    assert(requests_of(before) =~= seq![before[0].scheduled] + requests_of(self@.ready));
                    assert(self@.joined =~= requests_of(self@.sent) + requests_of(self@.ready) + self@.scheduled);
                }
                Some(request)
            },
        }
    }

    /// Takes note of the result of a request in flight; of nothing where none is.
    pub fn settle(&mut self)
        requires
            old(self)@.balanced(),
        ensures
            final(self)@.balanced(),
            final(self)@ == (if old(self)@.flying > 0 {
                RecordedView {
                    flying: (old(self)@.flying - 1) as nat,
                    answered: old(self)@.answered + 1,
                    ..old(self)@
                }
            } else {
                old(self)@
            }),
    {
        if self.in_flight > 0 {
            self.in_flight = self.in_flight - 1;
            self.answered = Ghost(self.answered@ + 1);
        }
    }

    /// Tells what to do next.
    pub fn next_step(&self, lookahead_ns: u64) -> (step: RecordedStep)
        ensures
            step == self@.step(lookahead_ns),
    {
        if self.ready.len() > 0 && self.in_flight < self.slots {
            return RecordedStep::Dispatch;
        }
        let preparation = match &self.pending {
            Some(waiting) => match waiting.ready_at_ns {
                Some(at) => Some(
                    if at > lookahead_ns {
                        at - lookahead_ns
                    } else {
                        0
                    },
                ),
                None => Some(0),
            },
            None => None,
        };
        let dispatch = if self.schedule.len() > 0 {
            Some(self.schedule[0].ready_at_ns)
        } else {
            None
        };
        let wake = match (preparation, dispatch) {
            (Some(x), Some(y)) => Some(
                if x <= y {
                    x
                } else {
                    y
                },
            ),
            (Some(x), None) => Some(x),
            (None, y) => y,
        };
        match wake {
            Some(until_ns) => if self.in_flight > 0 {
                RecordedStep::SleepOrComplete { until_ns }
            } else {
                RecordedStep::Sleep { until_ns }
            },
            None => if self.in_flight > 0 {
                RecordedStep::Complete
            } else {
                RecordedStep::Finish
            },
        }
    }
}

/// No sleep runs past the time of a scheduled request.
pub proof fn law_sleep_misses_nothing(
    pending: Option<PendingRequest>,
    schedule: Seq<ScheduledRequest>,
    lookahead_ns: u64,
    i: int,
)
    requires
        in_time_order(schedule),
        0 <= i < schedule.len(),
    ensures
        next_wake(pending, schedule, lookahead_ns) is Some,
        next_wake(pending, schedule, lookahead_ns)->0 <= schedule[i].ready_at_ns,
{
    if i > 0 {
        assert(at_or_before(place(schedule[0]), place(schedule[i])));
    }
}

/// A request that is ready while every slot is taken stays where it is, and the run waits for a
/// completion, whatever else it waits for.
pub proof fn law_ready_requests_wait_for_a_slot(state: RecordedView, lookahead_ns: u64)
    requires
        state.balanced(),
        state.ready.len() > 0,
        !state.can_send(),
    ensures
        state.flying == state.slots,
        state.step(lookahead_ns) is Complete || state.step(lookahead_ns) is SleepOrComplete,
{
}

/// No prepared request is dropped: each was handed out, waits for a slot or waits for its time, and
/// none of them twice.
pub proof fn law_no_request_is_dropped(state: RecordedView, i: int)
    requires
        state.balanced(),
        0 <= i < state.joined.len(),
    ensures
        state.joined.len() == state.sent.len() + state.ready.len() + state.scheduled.len(),
        state.joined[i] == (if i < state.sent.len() {
            state.sent[i].scheduled
        } else if i < state.sent.len() + state.ready.len() {
            state.ready[i - state.sent.len()].scheduled
        } else {
            state.scheduled[i - state.sent.len() - state.ready.len()]
        }),
{
}

/// Once a run is finished, the stream is at its end, every prepared request was handed out, and
/// every one of them has its result.
pub proof fn law_finished_runs_have_every_result(state: RecordedView, lookahead_ns: u64)
    requires
        state.balanced(),
        state.step(lookahead_ns) is Finish,
    ensures
        state.waiting is None,
        state.scheduled.len() == 0,
        state.ready.len() == 0,
        state.joined == requests_of(state.sent),
        state.answered == state.joined.len(),
{
    assert(requests_of(state.sent) + requests_of(state.ready) + state.scheduled =~= requests_of(state.sent));
}

/// A result reports how long its request waited for a slot: from when the scheduler took it up to
/// when it left.
pub proof fn law_waits_are_reported(
    result: RequestResult,
    times: DispatchTimes,
    scheduled_offset_ns: u64,
    ready: ReadyRequest,
)
    requires
        is_shell(result, times, scheduled_offset_ns, ready.scheduled.request.metadata),
        times.scheduler_wake_ns == times.base_ns + ready.woken_at_ns,
        times.dispatch_ns >= times.scheduler_wake_ns,
    ensures
        result.local_admission_lag_ns == times.dispatch_ns - times.base_ns - ready.woken_at_ns,
{
}

} // verus!
