//! Shared workload contracts.

use crate::ordered::{is_sorted, sort};
use vstd::prelude::*;

verus! {

/// The text in an optional string.
pub open spec fn optional_text(value: Option<String>) -> Option<Seq<char>> {
    match value {
        Some(text) => Some(text@),
        None => None,
    }
}

/// The texts in a list of strings.
pub open spec fn texts(values: Seq<String>) -> Seq<Seq<char>> {
    Seq::new(values.len(), |i: int| values[i]@)
}

/// Which agent session issued a request, and why.
#[derive(Debug)]
pub struct AgentContext {
    pub session_id: String,
    pub parent_session_id: Option<String>,
    /// Marks the last request of a session.
    pub session_final: Option<bool>,
    /// Opaque compaction metadata, as JSON text.
    pub compaction: Option<String>,
    pub input_trigger: Option<String>,
}

/// Mathematical view of an [`AgentContext`].
pub struct AgentContextView {
    pub session_id: Seq<char>,
    pub parent_session_id: Option<Seq<char>>,
    pub session_final: Option<bool>,
    pub compaction: Option<Seq<char>>,
    pub input_trigger: Option<Seq<char>>,
}

impl View for AgentContext {
    type V = AgentContextView;

    open spec fn view(&self) -> AgentContextView {
        AgentContextView {
            session_id: self.session_id@,
            parent_session_id: optional_text(self.parent_session_id),
            session_final: self.session_final,
            compaction: optional_text(self.compaction),
            input_trigger: optional_text(self.input_trigger),
        }
    }
}

/// Copies an optional string.
pub fn clone_optional(value: &Option<String>) -> (copy: Option<String>)
    ensures
        copy == *value,
{
    match value {
        Some(text) => Some(text.clone()),
        None => None,
    }
}

/// Tells whether two optional strings hold the same text.
pub fn same_optional(a: &Option<String>, b: &Option<String>) -> (same: bool)
    ensures
        same == (optional_text(*a) == optional_text(*b)),
{
    match (a, b) {
        (Some(left), Some(right)) => *left == *right,
        (None, None) => true,
        _ => false,
    }
}

impl Clone for AgentContext {
    fn clone(&self) -> (copy: Self)
        ensures
            copy == *self,
    {
        AgentContext {
            session_id: self.session_id.clone(),
            parent_session_id: clone_optional(&self.parent_session_id),
            session_final: self.session_final,
            compaction: clone_optional(&self.compaction),
            input_trigger: clone_optional(&self.input_trigger),
        }
    }
}

/// One model request: its shape and its place in the workload.
#[derive(Debug)]
pub struct TraceRequest {
    pub ordinal: usize,
    pub source_request_id: String,
    pub source_x_request_id: Option<String>,
    pub source_model: Option<String>,
    pub input_tokens: usize,
    pub output_tokens: u32,
    pub request_received_ms: u64,
    pub trace_block_size: usize,
    pub input_sequence_hashes: Vec<u64>,
    pub agent_context: Option<AgentContext>,
}

/// Mathematical view of a [`TraceRequest`].
#[verifier::ext_equal]
pub struct TraceRequestView {
    pub ordinal: usize,
    pub source_request_id: Seq<char>,
    pub source_x_request_id: Option<Seq<char>>,
    pub source_model: Option<Seq<char>>,
    pub input_tokens: usize,
    pub output_tokens: u32,
    pub request_received_ms: u64,
    pub trace_block_size: usize,
    pub input_sequence_hashes: Seq<u64>,
    pub agent_context: Option<AgentContextView>,
}

impl View for TraceRequest {
    type V = TraceRequestView;

    open spec fn view(&self) -> TraceRequestView {
        TraceRequestView {
            ordinal: self.ordinal,
            source_request_id: self.source_request_id@,
            source_x_request_id: optional_text(self.source_x_request_id),
            source_model: optional_text(self.source_model),
            input_tokens: self.input_tokens,
            output_tokens: self.output_tokens,
            request_received_ms: self.request_received_ms,
            trace_block_size: self.trace_block_size,
            input_sequence_hashes: self.input_sequence_hashes@,
            agent_context: match self.agent_context {
                Some(context) => Some(context@),
                None => None,
            },
        }
    }
}

impl Clone for TraceRequest {
    fn clone(&self) -> (copy: Self)
        ensures
            copy@ == self@,
            copy.source_request_id == self.source_request_id,
            copy.agent_context == self.agent_context,
    {
        let input_sequence_hashes = self.input_sequence_hashes.clone();
        assert(input_sequence_hashes@ =~= self.input_sequence_hashes@);
        TraceRequest {
            ordinal: self.ordinal,
            source_request_id: self.source_request_id.clone(),
            source_x_request_id: clone_optional(&self.source_x_request_id),
            source_model: clone_optional(&self.source_model),
            input_tokens: self.input_tokens,
            output_tokens: self.output_tokens,
            request_received_ms: self.request_received_ms,
            trace_block_size: self.trace_block_size,
            input_sequence_hashes,
            agent_context: match &self.agent_context {
                Some(context) => Some(context.clone()),
                None => None,
            },
        }
    }
}

/// Totals of a selected workload.
#[derive(Debug)]
pub struct TraceManifest {
    pub request_count: usize,
    pub session_count: usize,
    pub requests_with_agent_context: usize,
    pub first_request_received_ms: u64,
    pub last_request_received_ms: u64,
    pub duration_ms: u64,
    pub input_tokens: u64,
    pub output_tokens: u64,
    pub distinct_sequence_hashes: usize,
    pub trace_block_size: usize,
    pub source_digest_sha256: String,
}

impl Clone for TraceManifest {
    fn clone(&self) -> (copy: Self)
        ensures
            copy == *self,
    {
        TraceManifest {
            request_count: self.request_count,
            session_count: self.session_count,
            requests_with_agent_context: self.requests_with_agent_context,
            first_request_received_ms: self.first_request_received_ms,
            last_request_received_ms: self.last_request_received_ms,
            duration_ms: self.duration_ms,
            input_tokens: self.input_tokens,
            output_tokens: self.output_tokens,
            distinct_sequence_hashes: self.distinct_sequence_hashes,
            trace_block_size: self.trace_block_size,
            source_digest_sha256: self.source_digest_sha256.clone(),
        }
    }
}

/// Order statistics of a sample of whole numbers; all zero for an empty sample.
#[derive(Debug, Clone, Copy, PartialEq, Eq, Structural)]
pub struct Percentiles {
    pub min: u64,
    pub p50: u64,
    pub p95: u64,
    pub p99: u64,
    pub max: u64,
}

/// The nearest rank of a percentile in a sample of `count`: the least number of items that
/// makes up `percent` hundredths of it, counted from one.
pub open spec fn nearest_rank(count: nat, percent: nat) -> nat {
    (count * percent + 99) as nat / 100
}

/// The `percent`-th percentile of a sorted sample.
pub open spec fn percentile_of(sorted: Seq<u64>, percent: nat) -> u64 {
    sorted[nearest_rank(sorted.len(), percent) - 1]
}

/// `result` holds the order statistics of the sample that sorts into `sorted`.
pub open spec fn percentiles_of(sorted: Seq<u64>) -> Percentiles {
    if sorted.len() == 0 {
        Percentiles { min: 0, p50: 0, p95: 0, p99: 0, max: 0 }
    } else {
        Percentiles {
            min: sorted[0],
            p50: percentile_of(sorted, 50),
            p95: percentile_of(sorted, 95),
            p99: percentile_of(sorted, 99),
            max: sorted.last(),
        }
    }
}

fn percentile(sorted: &Vec<u64>, percent: u64) -> (value: u64)
    requires
        sorted@.len() > 0,
        0 < percent <= 100,
    ensures
        value == percentile_of(sorted@, percent as nat),
{
    let count = sorted.len() as u128;
    let ghost n = count as int;
    let ghost p = percent as int;
    assert(n * p <= n * 100 && n * p >= n && n * 100 <= 0xffff_ffff_ffff_ffff * 100) by (nonlinear_arith)
        requires
            0 < p <= 100,
            0 <= n <= 0xffff_ffff_ffff_ffff,
    ;
    let rank = (count * (percent as u128) + 99) / 100;
    assert(1 <= rank <= n);
    sorted[rank as usize - 1]
}

/// Summarises a sample by its nearest-rank percentiles.
pub fn percentiles(values: Vec<u64>) -> (result: Percentiles)
    ensures
        exists|sorted: Seq<u64>|
            is_sorted(sorted) && #[trigger] sorted.to_multiset() == values@.to_multiset() && result
                == percentiles_of(sorted),
{
    let sorted = sort(values);
    assert(is_sorted(sorted@) && sorted@.to_multiset() == values@.to_multiset());
    if sorted.len() == 0 {
        return Percentiles { min: 0, p50: 0, p95: 0, p99: 0, max: 0 };
    }
    Percentiles {
        min: sorted[0],
        p50: percentile(&sorted, 50),
        p95: percentile(&sorted, 95),
        p99: percentile(&sorted, 99),
        max: sorted[sorted.len() - 1],
    }
}

/// The order statistics of a sample lie in order.
pub proof fn law_percentiles_are_ordered(sorted: Seq<u64>)
    requires
        is_sorted(sorted),
        sorted.len() > 0,
    ensures
        ({
            let stats = percentiles_of(sorted);
            stats.min <= stats.p50 <= stats.p95 <= stats.p99 <= stats.max
        }),
{
    let n = sorted.len() as int;
    let r50 = nearest_rank(sorted.len(), 50) - 1;
    let r95 = nearest_rank(sorted.len(), 95) - 1;
    let r99 = nearest_rank(sorted.len(), 99) - 1;
    assert(0 <= r50 <= r95 <= r99 <= n - 1);
    lemma_sorted_at(sorted, 0, r50);
    lemma_sorted_at(sorted, r50, r95);
    lemma_sorted_at(sorted, r95, r99);
    lemma_sorted_at(sorted, r99, n - 1);
}

proof fn lemma_sorted_at(sorted: Seq<u64>, i: int, j: int)
    requires
        is_sorted(sorted),
        0 <= i <= j < sorted.len(),
    ensures
        sorted[i] <= sorted[j],
{
    if i < j {
        assert(crate::ordered::Ranked::ranks_before(sorted[i], sorted[j]));
    }
}

/// `value` is the nearest-rank percentile of a sorted sample: it stands at the first place up to which
/// so many hundredths of the items lie.
pub open spec fn is_nearest_rank(sorted: Seq<u64>, percent: int, value: u64) -> bool {
    exists|place: int|
        0 < place <= sorted.len() && sorted.len() * percent <= place * 100 && (place - 1) * 100 < sorted.len()
            * percent && value == #[trigger] sorted[place - 1]
}

/// The order statistics of a sample are what their names say: the least and the greatest item, and
/// nearest-rank percentiles.
pub proof fn law_percentiles_are_what_they_say(sorted: Seq<u64>, k: int)
    requires
        is_sorted(sorted),
        0 <= k < sorted.len(),
    ensures
        percentiles_of(sorted).min <= sorted[k] <= percentiles_of(sorted).max,
        sorted.contains(percentiles_of(sorted).min),
        sorted.contains(percentiles_of(sorted).max),
        is_nearest_rank(sorted, 50, percentiles_of(sorted).p50),
        is_nearest_rank(sorted, 95, percentiles_of(sorted).p95),
        is_nearest_rank(sorted, 99, percentiles_of(sorted).p99),
{
    let n = sorted.len() as int;
    lemma_sorted_at(sorted, 0, k);
    lemma_sorted_at(sorted, k, n - 1);
    assert(sorted.last() == sorted[n - 1]);
    let r50 = nearest_rank(sorted.len(), 50) as int;
    let r95 = nearest_rank(sorted.len(), 95) as int;
    let r99 = nearest_rank(sorted.len(), 99) as int;
    assert(percentiles_of(sorted).p50 == sorted[r50 - 1]);
    assert(percentiles_of(sorted).p95 == sorted[r95 - 1]);
    assert(percentiles_of(sorted).p99 == sorted[r99 - 1]);
}

/// A sample without items has zeroes for its order statistics.
pub proof fn law_empty_samples_have_zeroes(sorted: Seq<u64>)
    requires
        sorted.len() == 0,
    ensures
        percentiles_of(sorted) == (Percentiles { min: 0, p50: 0, p95: 0, p99: 0, max: 0 }),
{
}

} // verus!
