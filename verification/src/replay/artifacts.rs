//! Totals of a run.

use crate::agent::AgentKind;
use crate::contracts::{texts, Percentiles, TraceManifest};
use crate::double::Real;
use crate::replay::histogram::{
    digits_of, histogram_percentiles, new_histogram, record_value, recorded, reported, LagHistogram,
};
use crate::replay::options::{HttpTransport, ReplayOptions, TrafficKind};
use crate::replay::result::RequestResult;
use crate::scenario::model::{CompactionExpectedEffect, GeneratedSessionTopology};
use crate::text_map::{by_name, entry_map, entry_views};
use crate::token_shape::dictionary::TokenDictionaryManifest;
use crate::trace::spool::TraceStorageManifest;
use vstd::prelude::*;

verus! {

/// Significant digits of the lag histograms.
pub const LAG_DIGITS: u8 = 3;

/// Counts over the results of a run.
#[derive(Debug, Clone, Copy, PartialEq, Eq, Structural)]
pub struct RunCounts {
    pub request_count: usize,
    pub succeeded: usize,
    pub budgeted_requests: usize,
    pub unbudgeted_requests: usize,
    pub planned_aborts: usize,
    pub output_length_matches: usize,
    pub output_length_mismatches: usize,
    pub missing_output_usage: usize,
    pub planned_abort_matches: usize,
    pub planned_abort_mismatches: usize,
    /// Requests that left no later than the limit on the ninety-ninth percentile allows.
    pub dispatch_at_or_below_p99_limit: usize,
    /// The longest that a request left after its time.
    pub dispatch_max_ns: u64,
}

impl RunCounts {
    /// Counts of nothing.
    pub open spec fn none() -> RunCounts {
        RunCounts {
            request_count: 0,
            succeeded: 0,
            budgeted_requests: 0,
            unbudgeted_requests: 0,
            planned_aborts: 0,
            output_length_matches: 0,
            output_length_mismatches: 0,
            missing_output_usage: 0,
            planned_abort_matches: 0,
            planned_abort_mismatches: 0,
            dispatch_at_or_below_p99_limit: 0,
            dispatch_max_ns: 0,
        }
    }

    /// The counts add up: every request is budgeted or not, and every expectation is met or not.
    pub open spec fn adds_up(self) -> bool {
        &&& self.budgeted_requests + self.unbudgeted_requests == self.request_count
        &&& self.output_length_matches + self.output_length_mismatches + self.missing_output_usage
            == self.budgeted_requests
        &&& self.planned_abort_matches + self.planned_abort_mismatches == self.planned_aborts
        &&& self.planned_aborts <= self.request_count
        &&& self.succeeded <= self.request_count
        &&& self.dispatch_at_or_below_p99_limit <= self.request_count
    }
}

/// A request succeeded: it was given up on as planned, or it got a response without an error.
pub open spec fn has_succeeded(result: RequestResult) -> bool {
    result.planned_abort_match == Some(true) || (result.error is None && (result.status_code matches Some(status)
        && status < 400))
}

/// One more where `holds`.
pub open spec fn plus(count: usize, holds: bool) -> usize {
    if holds {
        (count + 1) as usize
    } else {
        count
    }
}

/// The counts after one more result.
pub open spec fn counted(counts: RunCounts, result: RequestResult, p99_limit_ns: u64) -> RunCounts {
    let budgeted = result.expected_output_tokens is Some;
    let aborts = result.compaction_expected_effect == Some(CompactionExpectedEffect::NoMutationAborted);
    RunCounts {
        request_count: plus(counts.request_count, true),
        succeeded: plus(counts.succeeded, has_succeeded(result)),
        budgeted_requests: plus(counts.budgeted_requests, budgeted),
        unbudgeted_requests: plus(counts.unbudgeted_requests, !budgeted),
        planned_aborts: plus(counts.planned_aborts, aborts),
        output_length_matches: plus(
            counts.output_length_matches,
            budgeted && result.output_length_match == Some(true),
        ),
        output_length_mismatches: plus(
            counts.output_length_mismatches,
            budgeted && result.output_length_match == Some(false),
        ),
        missing_output_usage: plus(counts.missing_output_usage, budgeted && result.output_length_match is None),
        planned_abort_matches: plus(
            counts.planned_abort_matches,
            aborts && result.planned_abort_match == Some(true),
        ),
        planned_abort_mismatches: plus(
            counts.planned_abort_mismatches,
            aborts && result.planned_abort_match != Some(true),
        ),
        dispatch_at_or_below_p99_limit: plus(
            counts.dispatch_at_or_below_p99_limit,
            result.dispatch_lag_ns <= p99_limit_ns,
        ),
        dispatch_max_ns: if result.dispatch_lag_ns > counts.dispatch_max_ns {
            result.dispatch_lag_ns
        } else {
            counts.dispatch_max_ns
        },
    }
}

/// However many results are counted, the counts add up.
pub proof fn law_counts_add_up(counts: RunCounts, result: RequestResult, p99_limit_ns: u64)
    requires
        counts.adds_up(),
        counts.request_count < usize::MAX,
    ensures
        RunCounts::none().adds_up(),
        counted(counts, result, p99_limit_ns).adds_up(),
{
    match result.output_length_match {
        Some(true) => {},
        Some(false) => {},
        None => {},
    }
}

/// Nanoseconds as whole microseconds, ties to the even one.
pub open spec fn microseconds(nanoseconds: u64) -> u64 {
    let whole = nanoseconds / 1000;
    let rest = nanoseconds % 1000;
    if rest > 500 || (rest == 500 && whole % 2 == 1) {
        (whole + 1) as u64
    } else {
        whole
    }
}

fn to_microseconds(nanoseconds: u64) -> (result: u64)
    ensures
        result == microseconds(nanoseconds),
{
    let whole = nanoseconds / 1000;
    let rest = nanoseconds % 1000;
    if rest > 500 || (rest == 500 && whole % 2 == 1) {
        whole + 1
    } else {
        whole
    }
}

/// Adds up the results of a run.
pub struct RunAccumulator {
    counts: RunCounts,
    scheduler_wake_lag_us: LagHistogram,
    dispatch_lag_us: LagHistogram,
    local_admission_lag_us: LagHistogram,
    p99_limit_ns: u64,
}

impl RunAccumulator {
    /// The counts add up, and the histograms keep their digits.
    pub closed spec fn wf(&self) -> bool {
        &&& self.counts.adds_up()
        &&& digits_of(self.scheduler_wake_lag_us) == LAG_DIGITS
        &&& digits_of(self.dispatch_lag_us) == LAG_DIGITS
        &&& digits_of(self.local_admission_lag_us) == LAG_DIGITS
    }

    /// The counts so far.
    pub closed spec fn totals(&self) -> RunCounts {
        self.counts
    }

    /// How late the scheduler took requests up, in microseconds.
    pub closed spec fn wake_lags(&self) -> vstd::multiset::Multiset<u64> {
        recorded(self.scheduler_wake_lag_us)
    }

    /// How late requests left, in microseconds.
    pub closed spec fn dispatch_lags(&self) -> vstd::multiset::Multiset<u64> {
        recorded(self.dispatch_lag_us)
    }

    /// How long requests waited for a slot, in microseconds.
    pub closed spec fn admission_lags(&self) -> vstd::multiset::Multiset<u64> {
        recorded(self.local_admission_lag_us)
    }

    /// The limit on the ninety-ninth percentile.
    pub closed spec fn limit_ns(&self) -> u64 {
        self.p99_limit_ns
    }

    pub fn new(dispatch_p99_limit_ns: u64) -> (result: Result<Self, String>)
        ensures
            result matches Ok(accumulator) && {
                &&& accumulator.wf()
                &&& accumulator.totals() == RunCounts::none()
                &&& accumulator.limit_ns() == dispatch_p99_limit_ns
                &&& accumulator.wake_lags() == vstd::multiset::Multiset::<u64>::empty()
                &&& accumulator.dispatch_lags() == vstd::multiset::Multiset::<u64>::empty()
                &&& accumulator.admission_lags() == vstd::multiset::Multiset::<u64>::empty()
            },
    {
        let scheduler_wake_lag_us = match new_histogram(LAG_DIGITS) {
            Ok(histogram) => histogram,
            Err(error) => return Err(error),
        };
        let dispatch_lag_us = match new_histogram(LAG_DIGITS) {
            Ok(histogram) => histogram,
            Err(error) => return Err(error),
        };
        let local_admission_lag_us = match new_histogram(LAG_DIGITS) {
            Ok(histogram) => histogram,
            Err(error) => return Err(error),
        };
        Ok(
            RunAccumulator {
                counts: RunCounts {
                    request_count: 0,
                    succeeded: 0,
                    budgeted_requests: 0,
                    unbudgeted_requests: 0,
                    planned_aborts: 0,
                    output_length_matches: 0,
                    output_length_mismatches: 0,
                    missing_output_usage: 0,
                    planned_abort_matches: 0,
                    planned_abort_mismatches: 0,
                    dispatch_at_or_below_p99_limit: 0,
                    dispatch_max_ns: 0,
                },
                scheduler_wake_lag_us,
                dispatch_lag_us,
                local_admission_lag_us,
                p99_limit_ns: dispatch_p99_limit_ns,
            },
        )
    }

    /// The counts so far.
    pub fn counts(&self) -> (counts: RunCounts)
        ensures
            counts == self.totals(),
            self.wf() ==> counts.adds_up(),
    {
        self.counts
    }

    /// Adds one result.
    pub fn record(&mut self, result: &RequestResult) -> (outcome: Result<(), String>)
        requires
            old(self).wf(),
            old(self).totals().request_count < usize::MAX,
        ensures
            outcome is Ok,
            final(self).wf(),
            final(self).limit_ns() == old(self).limit_ns(),
            final(self).totals() == counted(old(self).totals(), *result, old(self).limit_ns()),
            final(self).wake_lags() == old(self).wake_lags().insert(microseconds(result.scheduler_wake_lag_ns)),
            final(self).dispatch_lags() == old(self).dispatch_lags().insert(microseconds(result.dispatch_lag_ns)),
            final(self).admission_lags() == old(self).admission_lags().insert(
                microseconds(result.local_admission_lag_ns),
            ),
    {
        match record_value(&mut self.scheduler_wake_lag_us, to_microseconds(result.scheduler_wake_lag_ns)) {
            Ok(()) => {},
            Err(error) => return Err(error),
        }
        match record_value(&mut self.dispatch_lag_us, to_microseconds(result.dispatch_lag_ns)) {
            Ok(()) => {},
            Err(error) => return Err(error),
        }
        match record_value(&mut self.local_admission_lag_us, to_microseconds(result.local_admission_lag_ns)) {
            Ok(()) => {},
            Err(error) => return Err(error),
        }
        let succeeded = match result.planned_abort_match {
            Some(true) => true,
            _ => result.error.is_none() && match result.status_code {
                Some(status) => status < 400,
                None => false,
            },
        };
        self.counts.request_count += 1;
        if succeeded {
            self.counts.succeeded += 1;
        }
        if result.expected_output_tokens.is_some() {
            self.counts.budgeted_requests += 1;
            match result.output_length_match {
                Some(true) => {
                    self.counts.output_length_matches += 1;
                },
                Some(false) => {
                    self.counts.output_length_mismatches += 1;
                },
                None => {
                    self.counts.missing_output_usage += 1;
                },
            }
        } else {
            self.counts.unbudgeted_requests += 1;
        }
        let aborts = match result.compaction_expected_effect {
            Some(CompactionExpectedEffect::NoMutationAborted) => true,
            _ => false,
        };
        if aborts {
            self.counts.planned_aborts += 1;
            match result.planned_abort_match {
                Some(true) => {
                    self.counts.planned_abort_matches += 1;
                },
                _ => {
                    self.counts.planned_abort_mismatches += 1;
                },
            }
        }
        if result.dispatch_lag_ns <= self.p99_limit_ns {
            self.counts.dispatch_at_or_below_p99_limit += 1;
        }
        if result.dispatch_lag_ns > self.counts.dispatch_max_ns {
            self.counts.dispatch_max_ns = result.dispatch_lag_ns;
        }
        Ok(())
    }
}

/// Enough requests left on time, and none left later than allowed.
pub open spec fn timing_holds(counts: RunCounts, max_limit_ns: u64) -> bool {
    100 * counts.dispatch_at_or_below_p99_limit >= 99 * counts.request_count && counts.dispatch_max_ns <= max_limit_ns
}

/// Tells whether dispatch kept to its limits.
pub fn dispatch_timing_matches(counts: &RunCounts, max_limit_ns: u64) -> (result: bool)
    ensures
        result == timing_holds(*counts, max_limit_ns),
{
    let p99_rank = (counts.request_count as u128 * 99 + 99) / 100;
    counts.dispatch_at_or_below_p99_limit as u128 >= p99_rank && counts.dispatch_max_ns <= max_limit_ns
}

// ---------------------------------------------------------------------------------------------
// The summary
// ---------------------------------------------------------------------------------------------

/// Which run a summary is of.
pub struct SummaryIdentity {
    pub traffic_kind: TrafficKind,
    pub run_id: String,
    pub target: String,
    pub timer_backend: String,
    pub source_storage: Option<TraceStorageManifest>,
    pub session_topology: Option<GeneratedSessionTopology>,
}

/// How a run went. Lags are in microseconds, the largest dispatch lag and the total time in
/// nanoseconds.
pub struct RunSummary {
    pub run_id: String,
    pub agent: AgentKind,
    pub model: String,
    pub target: String,
    pub time_scale: Real,
    pub max_in_flight: usize,
    pub warmup_connections: usize,
    pub http_transport: HttpTransport,
    pub prepare_lookahead_ms: Option<u64>,
    pub result_flush_interval: usize,
    pub max_dispatch_p99_ms: Real,
    pub max_dispatch_max_ms: Real,
    pub timer_backend: String,
    pub static_header_names: Vec<String>,
    pub protocol_surface: String,
    pub traffic_kind: TrafficKind,
    pub scheduling_model: String,
    pub token_path_verified: bool,
    pub engine_cache_mode: Vec<(String, String)>,
    pub capacity_performance_conclusions_allowed: bool,
    pub conclusion_blockers: Vec<String>,
    pub source: TraceManifest,
    pub source_storage: Option<TraceStorageManifest>,
    pub session_topology: Option<GeneratedSessionTopology>,
    pub token_dictionary: TokenDictionaryManifest,
    pub counts: RunCounts,
    pub failed: usize,
    pub scheduler_wake_lag_us: Percentiles,
    pub dispatch_lag_us: Percentiles,
    /// The exact maximum, which the histogram may have rounded.
    pub dispatch_lag_max_ns: u64,
    pub local_admission_lag_us: Percentiles,
    pub request_fidelity_matches: bool,
    pub dispatch_timing_matches: bool,
    pub passed: bool,
    pub total_time_ns: u64,
}

/// The names of headers.
pub open spec fn names_of(headers: Seq<(String, String)>) -> Seq<Seq<char>> {
    Seq::new(headers.len(), |i: int| headers[i].0@)
}

/// What stands in the way of conclusions about capacity.
pub open spec fn blockers_of(token_path_verified: bool, cache_mode_declared: bool) -> Seq<Seq<char>> {
    let path = if token_path_verified {
        Seq::empty()
    } else {
        seq!["token_path_unverified"@]
    };
    if cache_mode_declared {
        path
    } else {
        path.push("engine_cache_mode_undeclared"@)
    }
}

/// Every request of the source was sent and went as it was to go.
pub open spec fn fidelity_holds(counts: RunCounts, source_requests: usize) -> bool {
    &&& counts.request_count == source_requests
    &&& counts.succeeded == source_requests
    &&& counts.output_length_matches == counts.budgeted_requests
    &&& counts.missing_output_usage == 0
    &&& counts.planned_abort_matches == counts.planned_aborts
}

/// `summary` is that of the run.
pub open spec fn is_summary(
    summary: RunSummary,
    identity: SummaryIdentity,
    source: TraceManifest,
    dictionary: TokenDictionaryManifest,
    options: ReplayOptions,
    accumulator: RunAccumulator,
    max_limit_ns: u64,
    elapsed_ns: u64,
) -> bool {
    let counts = accumulator.totals();
    let blockers = blockers_of(
        options.token_path_verified,
        options.engine_cache_mode@ != Map::<Seq<char>, Seq<char>>::empty(),
    );
    &&& summary.run_id == identity.run_id
    &&& summary.agent == options.agent
    &&& summary.model == options.model
    &&& summary.target == identity.target
    &&& summary.time_scale == options.time_scale
    &&& summary.max_in_flight == options.max_in_flight
    &&& summary.warmup_connections == options.warmup_connections
    &&& summary.http_transport == options.http_transport
    &&& summary.prepare_lookahead_ms == options.prepare_lookahead_ms
    &&& summary.result_flush_interval == options.result_flush_interval
    &&& summary.max_dispatch_p99_ms == options.max_dispatch_p99_ms
    &&& summary.max_dispatch_max_ms == options.max_dispatch_max_ms
    &&& summary.timer_backend == identity.timer_backend
    &&& texts(summary.static_header_names@) == names_of(options.static_headers@)
    &&& summary.protocol_surface@ == "chat_completions"@
    &&& summary.traffic_kind == identity.traffic_kind
    &&& summary.scheduling_model@ == identity.traffic_kind.model_name()
    &&& summary.token_path_verified == options.token_path_verified
    &&& by_name(entry_views(summary.engine_cache_mode@))
    &&& entry_map(entry_views(summary.engine_cache_mode@)) == options.engine_cache_mode@
    &&& summary.capacity_performance_conclusions_allowed == (blockers.len() == 0)
    &&& texts(summary.conclusion_blockers@) == blockers
    &&& summary.source == source
    &&& summary.source_storage == identity.source_storage
    &&& summary.session_topology == identity.session_topology
    &&& summary.token_dictionary == dictionary
    &&& summary.counts == counts
    &&& summary.failed == counts.request_count - counts.succeeded
    &&& summary.scheduler_wake_lag_us == reported(accumulator.wake_lags(), LAG_DIGITS)
    &&& summary.dispatch_lag_us == reported(accumulator.dispatch_lags(), LAG_DIGITS)
    &&& summary.dispatch_lag_max_ns == counts.dispatch_max_ns
    &&& summary.local_admission_lag_us == reported(accumulator.admission_lags(), LAG_DIGITS)
    &&& summary.request_fidelity_matches == fidelity_holds(counts, source.request_count)
    &&& summary.dispatch_timing_matches == timing_holds(counts, max_limit_ns)
    &&& summary.passed == (fidelity_holds(counts, source.request_count) && timing_holds(counts, max_limit_ns))
    &&& summary.total_time_ns == elapsed_ns
}

fn header_names(headers: &Vec<(String, String)>) -> (names: Vec<String>)
    ensures
        texts(names@) == names_of(headers@),
{
    let mut names: Vec<String> = Vec::with_capacity(headers.len());
    let mut i: usize = 0;
    while i < headers.len()
        invariant
            i <= headers@.len(),
            names@.len() == i,
            forall|k: int| 0 <= k < i ==> (#[trigger] names@[k])@ == headers@[k].0@,
        decreases headers@.len() - i,
    {
        names.push(headers[i].0.clone());
        i += 1;
    }
    assert(texts(names@) =~= names_of(headers@));
    names
}

fn copy_entries(entries: &Vec<(String, String)>) -> (copy: Vec<(String, String)>)
    ensures
        entry_views(copy@) == entry_views(entries@),
{
    let mut copy: Vec<(String, String)> = Vec::with_capacity(entries.len());
    let mut i: usize = 0;
    while i < entries.len()
        invariant
            i <= entries@.len(),
            copy@.len() == i,
            forall|k: int|
                0 <= k < i ==> (#[trigger] copy@[k]).0@ == entries@[k].0@ && copy@[k].1@ == entries@[k].1@,
        decreases entries@.len() - i,
    {
        copy.push((entries[i].0.clone(), entries[i].1.clone()));
        i += 1;
    }
    assert(entry_views(copy@) =~= entry_views(entries@));
    copy
}

/// Sums a run up.
pub fn summarize(
    identity: SummaryIdentity,
    source: &TraceManifest,
    dictionary: &TokenDictionaryManifest,
    options: &ReplayOptions,
    accumulator: &RunAccumulator,
    max_limit_ns: u64,
    elapsed_ns: u64,
) -> (summary: RunSummary)
    requires
        accumulator.wf(),
    ensures
        is_summary(
            summary,
            identity,
            *source,
            *dictionary,
            *options,
            *accumulator,
            max_limit_ns,
            elapsed_ns,
        ),
{
    let counts = accumulator.counts;
    let request_fidelity_matches = counts.request_count == source.request_count && counts.succeeded
        == source.request_count && counts.output_length_matches == counts.budgeted_requests
        && counts.missing_output_usage == 0 && counts.planned_abort_matches == counts.planned_aborts;
    let timing_matches = dispatch_timing_matches(&counts, max_limit_ns);
    let mut conclusion_blockers: Vec<String> = Vec::new();
    if !options.token_path_verified {
        conclusion_blockers.push("token_path_unverified".to_string());
    }
    if options.engine_cache_mode.is_empty() {
        conclusion_blockers.push("engine_cache_mode_undeclared".to_string());
    }
    assert(texts(conclusion_blockers@) =~= blockers_of(
        options.token_path_verified,
        options.engine_cache_mode@ != Map::<Seq<char>, Seq<char>>::empty(),
    ));
    let SummaryIdentity {
        traffic_kind,
        run_id,
        target,
        timer_backend,
        source_storage,
        session_topology,
    } = identity;
    RunSummary {
        run_id,
        agent: options.agent,
        model: options.model.clone(),
        target,
        time_scale: options.time_scale,
        max_in_flight: options.max_in_flight,
        warmup_connections: options.warmup_connections,
        http_transport: options.http_transport,
        prepare_lookahead_ms: options.prepare_lookahead_ms,
        result_flush_interval: options.result_flush_interval,
        max_dispatch_p99_ms: options.max_dispatch_p99_ms,
        max_dispatch_max_ms: options.max_dispatch_max_ms,
        timer_backend,
        static_header_names: header_names(&options.static_headers),
        protocol_surface: "chat_completions".to_string(),
        traffic_kind,
        scheduling_model: traffic_kind.scheduling_model().to_string(),
        token_path_verified: options.token_path_verified,
        engine_cache_mode: copy_entries(options.engine_cache_mode.entries()),
        capacity_performance_conclusions_allowed: conclusion_blockers.len() == 0,
        conclusion_blockers,
        source: source.clone(),
        source_storage,
        session_topology,
        token_dictionary: dictionary.clone(),
        counts,
        failed: counts.request_count - counts.succeeded,
        scheduler_wake_lag_us: histogram_percentiles(&accumulator.scheduler_wake_lag_us),
        dispatch_lag_us: histogram_percentiles(&accumulator.dispatch_lag_us),
        dispatch_lag_max_ns: counts.dispatch_max_ns,
        local_admission_lag_us: histogram_percentiles(&accumulator.local_admission_lag_us),
        request_fidelity_matches,
        dispatch_timing_matches: timing_matches,
        passed: request_fidelity_matches && timing_matches,
        total_time_ns: elapsed_ns,
    }
}

// ---------------------------------------------------------------------------------------------
// Flushing
// ---------------------------------------------------------------------------------------------

/// Tells when written results are to be flushed.
#[derive(Debug, Clone, Copy, PartialEq, Eq, Structural)]
pub struct FlushSchedule {
    pub interval: usize,
    pub since_flush: usize,
}

impl FlushSchedule {
    pub fn new(interval: usize) -> (schedule: Self)
        ensures
            schedule == (FlushSchedule { interval, since_flush: 0 }),
    {
        FlushSchedule { interval, since_flush: 0 }
    }

    /// Counts one written result; tells whether to flush, and starts over then.
    pub fn wrote(&mut self) -> (flush: bool)
        ensures
            final(self).interval == old(self).interval,
            flush == (old(self).since_flush + 1 >= old(self).interval),
            final(self).since_flush == (if flush {
                0
            } else {
                (old(self).since_flush + 1) as usize
            }),
    {
        if self.interval == 0 || self.since_flush >= self.interval - 1 {
            self.since_flush = 0;
            true
        } else {
            self.since_flush = self.since_flush + 1;
            false
        }
    }
}

} // verus!
