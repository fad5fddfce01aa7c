//! Loading: from the lines of a trace to an ordered selection of its requests.

use crate::contracts::{TraceManifest, TraceRequest};
use crate::digest::{hex_digest, hex_of, sha256};
use crate::ordered::{is_sorted, sort, Ranked};
use crate::text::{
    decimal, decimal_text, debug_quoted, lemma_bytes_order_total, lemma_bytes_order_transitive, quoted, same_text,
    text_at_or_before, text_precedes,
};
use crate::trace::record::{
    compile_request, compile_tool, is_tool_entry, line_record, parse_trace_record, request_entry, tool_is_placed,
    JsonLineEnvelope, RecordError, RequestEntry, ToolEntry, TraceRecord,
};
use std::collections::HashSet;
use vstd::hash_map::StringHashMap;
use vstd::prelude::*;
use vstd::utf8::encode_utf8;

verus! {

/// The trace schema that loading accepts.
pub open spec fn trace_schema() -> Seq<char> {
    "dynamo.request.trace.v1"@
}

/// Why a line cannot be loaded.
#[derive(Debug)]
pub enum LineError {
    Record { error: RecordError },
    Schema { schema: String },
    Request { error: RecordError },
    DuplicateRequest { request_id: String },
    EventType { event_type: String },
}

impl LineError {
    /// The words of the error.
    pub open spec fn text(self) -> Seq<char> {
        match self {
            LineError::Record { error } => error.text(),
            LineError::Schema { schema } => "unsupported trace schema "@ + quoted(schema@),
            LineError::Request { error } => "invalid request_end record: "@ + error.text(),
            LineError::DuplicateRequest { request_id } => "duplicate request_id "@ + request_id@,
            LineError::EventType { event_type } =>
                "request trace only supports request_end, request_payload, and tool_* events, got "@ + event_type@,
        }
    }

    /// Puts the error in words.
    pub fn message(&self) -> (text: String)
        ensures
            text@ == self.text(),
    {
        match self {
            LineError::Record { error } => error.message(),
            LineError::Schema { schema } => {
                let mut text = "unsupported trace schema ".to_string();
                text.append(debug_quoted(schema.as_str()).as_str());
                text
            },
            LineError::Request { error } => {
                let mut text = "invalid request_end record: ".to_string();
                text.append(error.message().as_str());
                text
            },
            LineError::DuplicateRequest { request_id } => {
                let mut text = "duplicate request_id ".to_string();
                text.append(request_id.as_str());
                text
            },
            LineError::EventType { event_type } => {
                let mut text =
                    "request trace only supports request_end, request_payload, and tool_* events, got ".to_string();
                text.append(event_type.as_str());
                text
            },
        }
    }
}

/// What a line adds to a trace.
pub enum LineEffect {
    Nothing,
    Request { entry: RequestEntry },
    Tool { record: TraceRecord },
    Refused { error: LineError },
}

/// What `line` adds to a trace that holds the request identifiers `seen`.
pub open spec fn line_effect(line: JsonLineEnvelope, seen: Set<Seq<char>>) -> LineEffect {
    match line_record(line) {
        Err(error) => LineEffect::Refused { error: LineError::Record { error } },
        Ok(None) => LineEffect::Nothing,
        Ok(Some(record)) => if record.schema@ != trace_schema() {
            LineEffect::Refused { error: LineError::Schema { schema: record.schema } }
        } else if record.event_type@ == "request_payload"@ || record.event_type@ == "tool_start"@ {
            LineEffect::Nothing
        } else if record.event_type@ == "request_end"@ {
            match request_entry(record) {
                Err(error) => LineEffect::Refused { error: LineError::Request { error } },
                Ok(entry) => if seen.contains(entry.request.source_request_id@) {
                    LineEffect::Refused {
                        error: LineError::DuplicateRequest { request_id: entry.request.source_request_id },
                    }
                } else {
                    LineEffect::Request { entry }
                },
            }
        } else if record.event_type@ == "tool_end"@ || record.event_type@ == "tool_error"@ {
            if tool_is_placed(record) {
                LineEffect::Tool { record }
            } else {
                LineEffect::Nothing
            }
        } else {
            LineEffect::Refused { error: LineError::EventType { event_type: record.event_type } }
        },
    }
}

/// The request identifiers in use.
pub open spec fn request_ids(requests: Seq<RequestEntry>) -> Set<Seq<char>> {
    Set::new(
        |id: Seq<char>|
            exists|i: int| 0 <= i < requests.len() && (#[trigger] requests[i]).request.source_request_id@ == id,
    )
}

/// No two requests share an identifier.
pub open spec fn ids_are_unique(requests: Seq<RequestEntry>) -> bool {
    forall|i: int, j: int|
        0 <= i < j < requests.len() ==> (#[trigger] requests[i]).request.source_request_id@ != (
        #[trigger] requests[j]).request.source_request_id@
}

/// By start, then by end, then by identifier.
impl Ranked for RequestEntry {
    open spec fn ranks_before(self, other: Self) -> bool {
        if self.start_ms != other.start_ms {
            self.start_ms < other.start_ms
        } else if self.end_ms != other.end_ms {
            self.end_ms < other.end_ms
        } else {
            text_at_or_before(self.request.source_request_id@, other.request.source_request_id@)
        }
    }

    proof fn rank_total(a: Self, b: Self) {
        lemma_bytes_order_total(encode_utf8(a.request.source_request_id@), encode_utf8(b.request.source_request_id@));
    }

    proof fn rank_transitive(a: Self, b: Self, c: Self) {
        if a.start_ms == b.start_ms && b.start_ms == c.start_ms && a.end_ms == b.end_ms && b.end_ms == c.end_ms {
            lemma_bytes_order_transitive(
                encode_utf8(a.request.source_request_id@),
                encode_utf8(b.request.source_request_id@),
                encode_utf8(c.request.source_request_id@),
            );
        }
    }

    fn precedes(&self, other: &Self) -> (result: bool) {
        if self.start_ms != other.start_ms {
            self.start_ms < other.start_ms
        } else if self.end_ms != other.end_ms {
            self.end_ms < other.end_ms
        } else {
            text_precedes(self.request.source_request_id.as_str(), other.request.source_request_id.as_str())
        }
    }
}

/// Why a trace yields no workload.
#[derive(Debug)]
pub enum LoadError {
    NoPaths,
    NoRequests,
    NoContext,
    NoSession { session_id: String },
    NothingSelected,
    InputOverflow,
    OutputOverflow,
    BlockSizes { sizes: Vec<usize> },
}

/// Mathematical view of a [`LoadError`].
pub enum LoadFailure {
    NoPaths,
    NoRequests,
    NoContext,
    NoSession { session_id: Seq<char> },
    NothingSelected,
    InputOverflow,
    OutputOverflow,
    BlockSizes { sizes: Set<usize> },
}

impl View for LoadError {
    type V = LoadFailure;

    open spec fn view(&self) -> LoadFailure {
        match self {
            LoadError::NoPaths => LoadFailure::NoPaths,
            LoadError::NoRequests => LoadFailure::NoRequests,
            LoadError::NoContext => LoadFailure::NoContext,
            LoadError::NoSession { session_id } => LoadFailure::NoSession { session_id: session_id@ },
            LoadError::NothingSelected => LoadFailure::NothingSelected,
            LoadError::InputOverflow => LoadFailure::InputOverflow,
            LoadError::OutputOverflow => LoadFailure::OutputOverflow,
            LoadError::BlockSizes { sizes } => LoadFailure::BlockSizes { sizes: sizes@.to_set() },
        }
    }
}

/// A list of numbers, separated by commas.
pub open spec fn listed(sizes: Seq<usize>) -> Seq<char>
    decreases sizes.len(),
{
    if sizes.len() == 0 {
        Seq::empty()
    } else if sizes.len() == 1 {
        decimal(sizes[0] as nat)
    } else {
        listed(sizes.drop_last()) + ", "@ + decimal(sizes.last() as nat)
    }
}

pub(crate) fn listed_text(sizes: &Vec<usize>) -> (text: String)
    ensures
        text@ == listed(sizes@),
{
    let mut text = String::new();
    let mut i: usize = 0;
    while i < sizes.len()
        invariant
            i <= sizes@.len(),
            text@ == listed(sizes@.take(i as int)),
        decreases sizes@.len() - i,
    {
        proof {
            assert(sizes@.take(i + 1).drop_last() =~= sizes@.take(i as int));
        }
        if i > 0 {
            text.append(", ");
        }
        text.append(decimal_text(sizes[i] as u64).as_str());
        i += 1;
        assert(text@ =~= listed(sizes@.take(i as int)));
    }
    assert(sizes@.take(sizes@.len() as int) =~= sizes@);
    text
}

impl LoadError {
    /// The words of the error.
    pub open spec fn text(self) -> Seq<char> {
        match self {
            LoadError::NoPaths => "at least one trace path is required"@,
            LoadError::NoRequests => "the trace contains no request_end records with replay metadata"@,
            LoadError::NoContext => "agent-loadgen requires agent_context on every request"@,
            LoadError::NoSession { session_id } => "the trace contains no requests for session "@ + quoted(
                session_id@,
            ),
            LoadError::NothingSelected => "the selected trace contains no requests"@,
            LoadError::InputOverflow => "input token count overflow"@,
            LoadError::OutputOverflow => "output token count overflow"@,
            LoadError::BlockSizes { sizes } => "shape-strict replay requires one trace_block_size, found {"@ + listed(
                sizes@,
            ) + "}"@,
        }
    }

    /// Puts the error in words.
    pub fn message(&self) -> (text: String)
        ensures
            text@ == self.text(),
    {
        match self {
            LoadError::NoPaths => "at least one trace path is required".to_string(),
            LoadError::NoRequests =>
                "the trace contains no request_end records with replay metadata".to_string(),
            LoadError::NoContext => "agent-loadgen requires agent_context on every request".to_string(),
            LoadError::NoSession { session_id } => {
                let mut text = "the trace contains no requests for session ".to_string();
                text.append(debug_quoted(session_id.as_str()).as_str());
                text
            },
            LoadError::NothingSelected => "the selected trace contains no requests".to_string(),
            LoadError::InputOverflow => "input token count overflow".to_string(),
            LoadError::OutputOverflow => "output token count overflow".to_string(),
            LoadError::BlockSizes { sizes } => {
                let mut text = "shape-strict replay requires one trace_block_size, found {".to_string();
                text.append(listed_text(sizes).as_str());
                text.append("}");
                text
            },
        }
    }
}

/// Every hash that occurs in the requests.
pub open spec fn hash_set(requests: Seq<RequestEntry>) -> Set<u64>
    decreases requests.len(),
{
    if requests.len() == 0 {
        Set::empty()
    } else {
        hash_set(requests.drop_last()).union(requests.last().request.input_sequence_hashes@.to_set())
    }
}

/// The session of a request that has a context.
pub open spec fn session_of(entry: RequestEntry) -> Seq<char> {
    entry.request.agent_context->0.session_id@
}

/// Every session that occurs in the requests.
pub open spec fn session_set(requests: Seq<RequestEntry>) -> Set<Seq<char>> {
    Seq::new(requests.len(), |i: int| session_of(requests[i])).to_set()
}

/// Every block size that occurs in the requests.
pub open spec fn block_sizes(requests: Seq<RequestEntry>) -> Set<usize> {
    Seq::new(requests.len(), |i: int| requests[i].request.trace_block_size).to_set()
}

/// The sums of the input and output lengths, or why there are none.
pub open spec fn token_totals(requests: Seq<RequestEntry>) -> Result<(nat, nat), LoadFailure>
    decreases requests.len(),
{
    if requests.len() == 0 {
        Ok((0, 0))
    } else {
        let last = requests.last().request;
        match token_totals(requests.drop_last()) {
            Err(failure) => Err(failure),
            Ok((input, output)) => if last.agent_context is None {
                Err(LoadFailure::NoContext)
            } else if input + last.input_tokens > u64::MAX {
                Err(LoadFailure::InputOverflow)
            } else if output + last.output_tokens > u64::MAX {
                Err(LoadFailure::OutputOverflow)
            } else {
                Ok((input + last.input_tokens as nat, output + last.output_tokens as nat))
            },
        }
    }
}

proof fn lemma_token_totals_failure(requests: Seq<RequestEntry>, n: int)
    requires
        0 <= n <= requests.len(),
        token_totals(requests.take(n)) is Err,
    ensures
        token_totals(requests) == token_totals(requests.take(n)),
    decreases requests.len(),
{
    if n == requests.len() {
        assert(requests.take(n) =~= requests);
    } else {
        assert(requests.drop_last().take(n) =~= requests.take(n));
        lemma_token_totals_failure(requests.drop_last(), n);
    }
}

pub(crate) proof fn lemma_token_totals_contexts(requests: Seq<RequestEntry>)
    requires
        token_totals(requests) is Ok,
    ensures
        forall|k: int| 0 <= k < requests.len() ==> (#[trigger] requests[k]).request.agent_context is Some,
    decreases requests.len(),
{
    if requests.len() > 0 {
        lemma_token_totals_contexts(requests.drop_last());
        assert forall|k: int| 0 <= k < requests.len() implies (
        #[trigger] requests[k]).request.agent_context is Some by {
            if k < requests.len() - 1 {
                assert(requests.drop_last()[k] == requests[k]);
            }
        }
    }
}

/// Why the requests have no manifest.
pub open spec fn manifest_failure(requests: Seq<RequestEntry>) -> Option<LoadFailure> {
    if requests.len() == 0 {
        Some(LoadFailure::NothingSelected)
    } else {
        match token_totals(requests) {
            Err(failure) => Some(failure),
            Ok(_) => if block_sizes(requests).len() != 1 {
                Some(LoadFailure::BlockSizes { sizes: block_sizes(requests) })
            } else {
                None
            },
        }
    }
}

/// `manifest` totals `requests`, which come from a source with the given digest.
pub open spec fn is_manifest(manifest: TraceManifest, requests: Seq<RequestEntry>, source: Seq<u8>) -> bool {
    let first = requests.first().request.request_received_ms;
    let last = requests.last().request.request_received_ms;
    &&& manifest.request_count == requests.len()
    &&& manifest.session_count == session_set(requests).len()
    &&& manifest.requests_with_agent_context == requests.len()
    &&& manifest.first_request_received_ms == first
    &&& manifest.last_request_received_ms == last
    &&& manifest.duration_ms == if last > first {
        last - first
    } else {
        0
    }
    &&& token_totals(requests) == Ok::<(nat, nat), LoadFailure>(
        (manifest.input_tokens as nat, manifest.output_tokens as nat),
    )
    &&& manifest.distinct_sequence_hashes == hash_set(requests).len()
    &&& manifest.trace_block_size == requests.first().request.trace_block_size
    &&& manifest.source_digest_sha256@ == hex_of(sha256(source))
}

/// Each number is greater than the one before it.
pub open spec fn increasing(sizes: Seq<usize>) -> bool {
    forall|i: int, j: int| 0 <= i < j < sizes.len() ==> #[trigger] sizes[i] < #[trigger] sizes[j]
}

pub(crate) fn insert_size(sizes: &mut Vec<usize>, size: usize)
    requires
        increasing(old(sizes)@),
    ensures
        increasing(final(sizes)@),
        final(sizes)@.to_set() == old(sizes)@.to_set().insert(size),
{
    let mut at: usize = 0;
    while at < sizes.len() && sizes[at] < size
        invariant
            at <= sizes@.len(),
            sizes@ == old(sizes)@,
            forall|i: int| 0 <= i < at ==> sizes@[i] < size,
        decreases sizes@.len() - at,
    {
        at += 1;
    }
    let ghost before = sizes@;
    if at < sizes.len() && sizes[at] == size {
        assert(before.contains(before[at as int]));
        assert(before.to_set().insert(size) =~= before.to_set());
        return;
    }
    sizes.insert(at, size);
    proof {
        assert forall|i: int, j: int| 0 <= i < j < sizes@.len() implies #[trigger] sizes@[i]
            < #[trigger] sizes@[j] by {
            let from = |k: int|
                if k < at {
                    k
                } else {
                    k - 1
                };
            if i != at {
                assert(sizes@[i] == before[from(i)]);
            }
            if j != at {
                assert(sizes@[j] == before[from(j)]);
            }
            if j > at && at < before.len() {
                assert(before[at as int] <= before[from(j)]);
            }
        }
        assert forall|x: usize| sizes@.to_set().contains(x) == #[trigger] before.to_set().insert(size).contains(
            x,
        ) by {
            if sizes@.contains(x) {
                let k = sizes@.index_of(x);
                if k < at {
                    assert(before[k] == x);
                } else if k > at {
                    assert(before[k - 1] == x);
                }
            }
            if before.contains(x) {
                let k = before.index_of(x);
                if k < at {
                    assert(sizes@[k] == x);
                } else {
                    assert(sizes@[k + 1] == x);
                }
            }
            assert(sizes@[at as int] == size);
        }
        assert(sizes@.to_set() =~= before.to_set().insert(size));
    }
}

pub(crate) proof fn lemma_increasing_length(sizes: Seq<usize>)
    requires
        increasing(sizes),
    ensures
        sizes.to_set().len() == sizes.len(),
{
    assert(sizes.no_duplicates());
    sizes.unique_seq_to_set();
}

/// Totals a selection of requests.
pub fn make_manifest(requests: &Vec<RequestEntry>, source: &[u8]) -> (result: Result<TraceManifest, LoadError>)
    ensures
        match result {
            Ok(manifest) => manifest_failure(requests@) is None && is_manifest(manifest, requests@, source@),
            Err(error) => {
                &&& manifest_failure(requests@) == Some(error@)
                &&& error matches LoadError::BlockSizes { sizes } ==> increasing(sizes@)
            },
        },
{
    if requests.len() == 0 {
        return Err(LoadError::NothingSelected);
    }
    let mut sessions: StringHashMap<bool> = StringHashMap::new();
    let mut hashes: HashSet<u64> = HashSet::new();
    let mut sizes: Vec<usize> = Vec::new();
    let mut input_tokens: u64 = 0;
    let mut output_tokens: u64 = 0;
    proof {
        assert(requests@.take(0) =~= Seq::empty());
        assert(sessions@.dom() =~= session_set(requests@.take(0)));
        assert(sizes@.to_set() =~= block_sizes(requests@.take(0)));
    }
    let mut i: usize = 0;
    while i < requests.len()
        invariant
            i <= requests@.len(),
            token_totals(requests@.take(i as int)) == Ok::<(nat, nat), LoadFailure>(
                (input_tokens as nat, output_tokens as nat),
            ),
            sessions@.dom() == session_set(requests@.take(i as int)),
            hashes@ == hash_set(requests@.take(i as int)),
            increasing(sizes@),
            sizes@.to_set() == block_sizes(requests@.take(i as int)),
        decreases requests@.len() - i,
    {
        let request = &requests[i].request;
        let ghost past = requests@.take(i as int);
        let ghost next = requests@.take(i + 1);
        proof {
            assert(next.drop_last() =~= past);
            assert(next.last() == requests@[i as int]);
        }
        let context = match &request.agent_context {
            Some(context) => context,
            None => {
                proof {
                    lemma_token_totals_failure(requests@, i + 1);
                }
                return Err(LoadError::NoContext);
            },
        };
        sessions.insert(context.session_id.clone(), true);
        proof {
            let old_ids = Seq::new(past.len(), |k: int| session_of(past[k]));
            let new_ids = Seq::new(next.len(), |k: int| session_of(next[k]));
            assert(new_ids =~= old_ids.push(context.session_id@));
            lemma_push_to_set(old_ids, context.session_id@);
            assert(sessions@.dom() =~= session_set(next));
        }
        let mut j: usize = 0;
        proof {
            assert(request.input_sequence_hashes@.take(0) =~= Seq::empty());
            assert(hashes@ =~= hash_set(past).union(request.input_sequence_hashes@.take(0).to_set()));
        }
        while j < request.input_sequence_hashes.len()
            invariant
                j <= request.input_sequence_hashes@.len(),
                hashes@ == hash_set(past).union(request.input_sequence_hashes@.take(j as int).to_set()),
            decreases request.input_sequence_hashes@.len() - j,
        {
            let hash = request.input_sequence_hashes[j];
            hashes.insert(hash);
            proof {
                let list = request.input_sequence_hashes@;
                assert(list.take(j + 1) =~= list.take(j as int).push(hash));
                lemma_push_to_set(list.take(j as int), hash);
                assert(hashes@ =~= hash_set(past).union(list.take(j + 1).to_set()));
            }
            j += 1;
        }
        proof {
            assert(request.input_sequence_hashes@.take(j as int) =~= request.input_sequence_hashes@);
        }
        insert_size(&mut sizes, request.trace_block_size);
        proof {
            let old_sizes = Seq::new(past.len(), |k: int| past[k].request.trace_block_size);
            let new_sizes = Seq::new(next.len(), |k: int| next[k].request.trace_block_size);
            assert(new_sizes =~= old_sizes.push(request.trace_block_size));
            lemma_push_to_set(old_sizes, request.trace_block_size);
            assert(sizes@.to_set() =~= block_sizes(next));
        }
        input_tokens = match input_tokens.checked_add(request.input_tokens as u64) {
            Some(total) => total,
            None => {
                proof {
                    lemma_token_totals_failure(requests@, i + 1);
                }
                return Err(LoadError::InputOverflow);
            },
        };
        output_tokens = match output_tokens.checked_add(request.output_tokens as u64) {
            Some(total) => total,
            None => {
                proof {
                    lemma_token_totals_failure(requests@, i + 1);
                }
                return Err(LoadError::OutputOverflow);
            },
        };
        i += 1;
    }
    proof {
        assert(requests@.take(i as int) =~= requests@);
        lemma_increasing_length(sizes@);
    }
    if sizes.len() != 1 {
        return Err(LoadError::BlockSizes { sizes });
    }
    let first = requests[0].request.request_received_ms;
    let last = requests[requests.len() - 1].request.request_received_ms;
    Ok(
        TraceManifest {
            request_count: requests.len(),
            session_count: sessions.len(),
            requests_with_agent_context: requests.len(),
            first_request_received_ms: first,
            last_request_received_ms: last,
            duration_ms: last.saturating_sub(first),
            input_tokens,
            output_tokens,
            distinct_sequence_hashes: hashes.len(),
            trace_block_size: requests[0].request.trace_block_size,
            source_digest_sha256: hex_digest(source),
        },
    )
}

pub(crate) proof fn lemma_push_to_set<A>(list: Seq<A>, item: A)
    ensures
        list.push(item).to_set() == list.to_set().insert(item),
{
    assert forall|x: A| list.push(item).to_set().contains(x) == #[trigger] list.to_set().insert(item).contains(x) by {
        if list.push(item).contains(x) {
            let k = list.push(item).index_of(x);
            if k < list.len() {
                assert(list[k] == x);
            }
        }
        if list.contains(x) {
            let k = list.index_of(x);
            assert(list.push(item)[k] == x);
        }
        assert(list.push(item)[list.len() as int] == item);
    }
    assert(list.push(item).to_set() =~= list.to_set().insert(item));
}

/// An ordered selection of a trace.
#[derive(Debug)]
pub struct LoadedTrace {
    pub requests: Vec<RequestEntry>,
    pub tools: Vec<ToolEntry>,
    pub manifest: TraceManifest,
}

/// The requests of one session, or all of them.
pub open spec fn of_session(requests: Seq<RequestEntry>, session_id: Option<Seq<char>>) -> Seq<RequestEntry> {
    match session_id {
        Some(id) => requests.filter(|entry: RequestEntry| session_of(entry) == id),
        None => requests,
    }
}

/// The first `limit` of the requests, or all of them.
pub open spec fn limited(requests: Seq<RequestEntry>, limit: Option<usize>) -> Seq<RequestEntry> {
    match limit {
        Some(count) => if count < requests.len() {
            requests.take(count as int)
        } else {
            requests
        },
        None => requests,
    }
}

/// A request with its place in the selection.
pub open spec fn placed(entry: RequestEntry, ordinal: usize) -> RequestEntry {
    RequestEntry { request: TraceRequest { ordinal, ..entry.request }, ..entry }
}

/// The requests, numbered in order.
pub open spec fn numbered(requests: Seq<RequestEntry>) -> Seq<RequestEntry> {
    Seq::new(requests.len(), |i: int| placed(requests[i], i as usize))
}

/// Why a trace that sorts into `sorted` yields no workload.
pub open spec fn load_failure(
    sorted: Seq<RequestEntry>,
    max_requests: Option<usize>,
    session_id: Option<Seq<char>>,
) -> Option<LoadFailure> {
    let chosen = of_session(sorted, session_id);
    if sorted.len() == 0 {
        Some(LoadFailure::NoRequests)
    } else if exists|i: int| 0 <= i < sorted.len() && (#[trigger] sorted[i]).request.agent_context is None {
        Some(LoadFailure::NoContext)
    } else if session_id is Some && chosen.len() == 0 {
        Some(LoadFailure::NoSession { session_id: session_id->0 })
    } else {
        manifest_failure(numbered(limited(chosen, max_requests)))
    }
}

/// `loaded` is the selection from a trace that sorts into `sorted`.
pub open spec fn is_loaded(
    loaded: LoadedTrace,
    sorted: Seq<RequestEntry>,
    tools: Seq<ToolEntry>,
    source: Seq<u8>,
    max_requests: Option<usize>,
    session_id: Option<Seq<char>>,
) -> bool {
    &&& loaded.requests@ == numbered(limited(of_session(sorted, session_id), max_requests))
    &&& loaded.tools@ == tools.filter(
        |tool: ToolEntry| session_set(loaded.requests@).contains(tool.session_id@),
    )
    &&& is_manifest(loaded.manifest, loaded.requests@, source)
}

/// Collects the lines of a trace.
pub struct TraceLoader {
    requests: Vec<RequestEntry>,
    tools: Vec<ToolEntry>,
    request_ids: StringHashMap<bool>,
    source: Vec<u8>,
}

impl TraceLoader {
    /// The requests so far.
    pub closed spec fn requests(&self) -> Seq<RequestEntry> {
        self.requests@
    }

    /// The tool calls so far.
    pub closed spec fn tools(&self) -> Seq<ToolEntry> {
        self.tools@
    }

    /// The bytes of the lines so far.
    pub closed spec fn source(&self) -> Seq<u8> {
        self.source@
    }

    pub closed spec fn wf(&self) -> bool {
        &&& self.request_ids@.dom() == request_ids(self.requests@)
        &&& ids_are_unique(self.requests@)
    }

    /// No two requests that were taken in share an identifier.
    pub proof fn law_ids_are_unique(&self)
        requires
            self.wf(),
        ensures
            ids_are_unique(self.requests()),
    {
    }

    /// Starts on a trace that is spread over `paths` files.
    pub fn new(paths: usize) -> (result: Result<Self, LoadError>)
        ensures
            match result {
                Ok(loader) => {
                    &&& paths > 0
                    &&& loader.wf()
                    &&& loader.requests() == Seq::<RequestEntry>::empty()
                    &&& loader.tools() == Seq::<ToolEntry>::empty()
                    &&& loader.source() == Seq::<u8>::empty()
                },
                Err(error) => paths == 0 && error@ == LoadFailure::NoPaths,
            },
    {
        if paths == 0 {
            return Err(LoadError::NoPaths);
        }
        let loader = TraceLoader {
            requests: Vec::new(),
            tools: Vec::new(),
            request_ids: StringHashMap::new(),
            source: Vec::new(),
        };
        assert(loader.request_ids@.dom() =~= request_ids(loader.requests@));
        Ok(loader)
    }

    /// Takes in one line that is not blank: its text and the JSON value that it holds.
    pub fn push_line(&mut self, text: &str, line: JsonLineEnvelope) -> (result: Result<(), LineError>)
        requires
            old(self).wf(),
        ensures
            final(self).wf(),
            final(self).source() == old(self).source() + encode_utf8(text@).push(10u8),
            match line_effect(line, request_ids(old(self).requests())) {
                LineEffect::Refused { error } => {
                    &&& result == Err::<(), LineError>(error)
                    &&& final(self).requests() == old(self).requests()
                    &&& final(self).tools() == old(self).tools()
                },
                LineEffect::Nothing => {
                    &&& result is Ok
                    &&& final(self).requests() == old(self).requests()
                    &&& final(self).tools() == old(self).tools()
                },
                LineEffect::Request { entry } => {
                    &&& result is Ok
                    &&& final(self).requests() == old(self).requests().push(entry)
                    &&& final(self).tools() == old(self).tools()
                },
                LineEffect::Tool { record } => {
                    &&& result is Ok
                    &&& final(self).requests() == old(self).requests()
                    &&& final(self).tools().len() == old(self).tools().len() + 1
                    &&& final(self).tools().drop_last() == old(self).tools()
                    &&& is_tool_entry(record, final(self).tools().last())
                },
            },
    {
        self.source.extend_from_slice(text.as_bytes());
        self.source.push(10);
        assert(self.source@ =~= old(self).source@ + encode_utf8(text@).push(10u8));
        let record = match parse_trace_record(line) {
            Err(error) => {
                return Err(LineError::Record { error });
            },
            Ok(None) => {
                return Ok(());
            },
            Ok(Some(record)) => record,
        };
        if !same_text(record.schema.as_str(), "dynamo.request.trace.v1") {
            return Err(LineError::Schema { schema: record.schema });
        }
        let event_type = record.event_type.clone();
        if same_text(event_type.as_str(), "request_payload") || same_text(event_type.as_str(), "tool_start") {
            return Ok(());
        }
        if same_text(event_type.as_str(), "request_end") {
            let entry = match compile_request(record) {
                Err(error) => {
                    return Err(LineError::Request { error });
                },
                Ok(entry) => entry,
            };
            if self.request_ids.contains_key(entry.request.source_request_id.as_str()) {
                return Err(LineError::DuplicateRequest { request_id: entry.request.source_request_id });
            }
            let ghost before = self.requests@;
            self.request_ids.insert(entry.request.source_request_id.clone(), true);
            self.requests.push(entry);
            proof {
                let id = entry.request.source_request_id@;
                assert forall|x: Seq<char>| #[trigger]
                    self.request_ids@.dom().contains(x) == request_ids(self.requests@).contains(x) by {
                    if request_ids(before).contains(x) {
                        let i = choose|i: int|
                            0 <= i < before.len() && (#[trigger] before[i]).request.source_request_id@ == x;
                        assert(self.requests@[i].request.source_request_id@ == x);
                    }
                    if request_ids(self.requests@).contains(x) && x != id {
                        let i = choose|i: int|
                            0 <= i < self.requests@.len() && (
                            #[trigger] self.requests@[i]).request.source_request_id@ == x;
                        assert(before[i].request.source_request_id@ == x);
                    }
                    assert(self.requests@[before.len() as int].request.source_request_id@ == id);
                }
                assert(self.request_ids@.dom() =~= request_ids(self.requests@));
                assert forall|i: int, j: int| 0 <= i < j < self.requests@.len() implies (
                #[trigger] self.requests@[i]).request.source_request_id@ != (
                #[trigger] self.requests@[j]).request.source_request_id@ by {
                    if j == before.len() {
                        assert(before[i].request.source_request_id@ != id);
                    }
                }
            }
            return Ok(());
        }
        if same_text(event_type.as_str(), "tool_end") || same_text(event_type.as_str(), "tool_error") {
            if let Some(tool) = compile_tool(record) {
                self.tools.push(tool);
                assert(self.tools@.drop_last() =~= old(self).tools@);
            }
            return Ok(());
        }
        Err(LineError::EventType { event_type })
    }

    /// Orders, selects and numbers the requests.
    pub fn finish(
        self,
        max_requests: Option<usize>,
        session_id: Option<&str>,
    ) -> (result: Result<LoadedTrace, LoadError>)
        requires
            self.wf(),
        ensures
            exists|sorted: Seq<RequestEntry>|
                {
                    let wanted = match session_id {
                        Some(id) => Some(id@),
                        None => None,
                    };
                    &&& is_sorted(sorted)
                    &&& #[trigger] sorted.to_multiset() == self.requests().to_multiset()
                    &&& match result {
                        Ok(loaded) => {
                            &&& load_failure(sorted, max_requests, wanted) is None
                            &&& is_loaded(loaded, sorted, self.tools(), self.source(), max_requests, wanted)
                        },
                        Err(error) => load_failure(sorted, max_requests, wanted) == Some(error@),
                    }
                },
            result matches Err(LoadError::BlockSizes { sizes }) ==> increasing(sizes@),
    {
        let TraceLoader { requests, tools, request_ids: _, source } = self;
        let sorted = sort(requests);
        let ghost order = sorted@;
        let ghost wanted = match session_id {
            Some(id) => Some(id@),
            None => None::<Seq<char>>,
        };
        assert(is_sorted(order) && order.to_multiset() == self.requests().to_multiset());
        if sorted.len() == 0 {
            return Err(LoadError::NoRequests);
        }
        let mut i: usize = 0;
        while i < sorted.len()
            invariant
                i <= sorted@.len(),
                sorted@ == order,
                order.len() > 0,
                is_sorted(order) && order.to_multiset() == self.requests().to_multiset(),
                forall|k: int| 0 <= k < i ==> (#[trigger] order[k]).request.agent_context is Some,
            decreases sorted@.len() - i,
        {
            if sorted[i].request.agent_context.is_none() {
                return Err(LoadError::NoContext);
            }
            i += 1;
        }
        let mut chosen = match session_id {
            None => sorted,
            Some(id) => {
                let kept = retain_session(sorted, id);
                if kept.len() == 0 {
                    return Err(LoadError::NoSession { session_id: id.to_string() });
                }
                kept
            },
        };
        assert(chosen@ == of_session(order, wanted));
        if let Some(limit) = max_requests {
            if limit < chosen.len() {
                chosen.truncate(limit);
                assert(chosen@ =~= of_session(order, wanted).take(limit as int));
            }
        }
        let requests = number_requests(chosen);
        let manifest = match make_manifest(&requests, source.as_slice()) {
            Ok(manifest) => manifest,
            Err(error) => {
                return Err(error);
            },
        };
        proof {
            lemma_token_totals_contexts(requests@);
        }
        let tools = retain_tools(tools, &requests);
        Ok(LoadedTrace { requests, tools, manifest })
    }
}

fn retain_session(requests: Vec<RequestEntry>, session_id: &str) -> (kept: Vec<RequestEntry>)
    requires
        forall|k: int| 0 <= k < requests@.len() ==> (#[trigger] requests@[k]).request.agent_context is Some,
    ensures
        kept@ == of_session(requests@, Some(session_id@)),
{
    let ghost all = requests@;
    let ghost belongs = |entry: RequestEntry| session_of(entry) == session_id@;
    let mut kept: Vec<RequestEntry> = Vec::new();
    proof {
        reveal(Seq::filter);
        assert(all.take(0) =~= Seq::empty());
    }
    for entry in it: requests
        invariant
            it.seq() == all,
            belongs == (|entry: RequestEntry| session_of(entry) == session_id@),
            kept@ == all.take(it.index() as int).filter(belongs),
            forall|k: int| 0 <= k < all.len() ==> (#[trigger] all[k]).request.agent_context is Some,
    {
        proof {
            assert(all[it.index() as int] == entry);
            reveal(Seq::filter);
            assert(all.take(it.index() + 1).drop_last() =~= all.take(it.index() as int));
            assert(all.take(it.index() + 1).last() == entry);
        }
        let keep = match &entry.request.agent_context {
            Some(context) => same_text(context.session_id.as_str(), session_id),
            None => false,
        };
        assert(keep == belongs(entry));
        if keep {
            kept.push(entry);
        }
    }
    assert(all.take(all.len() as int) =~= all);
    kept
}

fn number_requests(requests: Vec<RequestEntry>) -> (result: Vec<RequestEntry>)
    ensures
        result@ == numbered(requests@),
{
    let ghost all = requests@;
    let mut result: Vec<RequestEntry> = Vec::with_capacity(requests.len());
    let mut ordinal: usize = 0;
    let count = requests.len();
    for entry in it: requests
        invariant
            it.seq() == all,
            count == all.len(),
            ordinal == it.index(),
            result@ == numbered(all).take(it.index() as int),
    {
        let mut entry = entry;
        entry.request.ordinal = ordinal;
        result.push(entry);
        assert(result@ =~= numbered(all).take(it.index() + 1));
        ordinal += 1;
    }
    assert(numbered(all).take(all.len() as int) =~= numbered(all));
    result
}

fn retain_tools(tools: Vec<ToolEntry>, requests: &Vec<RequestEntry>) -> (kept: Vec<ToolEntry>)
    requires
        forall|k: int| 0 <= k < requests@.len() ==> (#[trigger] requests@[k]).request.agent_context is Some,
    ensures
        kept@ == tools@.filter(|tool: ToolEntry| session_set(requests@).contains(tool.session_id@)),
{
    let mut sessions: StringHashMap<bool> = StringHashMap::new();
    assert(sessions@.dom() =~= session_set(requests@.take(0)));
    let mut i: usize = 0;
    while i < requests.len()
        invariant
            i <= requests@.len(),
            forall|k: int| 0 <= k < requests@.len() ==> (#[trigger] requests@[k]).request.agent_context is Some,
            sessions@.dom() == session_set(requests@.take(i as int)),
        decreases requests@.len() - i,
    {
        if let Some(context) = &requests[i].request.agent_context {
            sessions.insert(context.session_id.clone(), true);
            proof {
                let past = requests@.take(i as int);
                let next = requests@.take(i + 1);
                let old_ids = Seq::new(past.len(), |k: int| session_of(past[k]));
                let new_ids = Seq::new(next.len(), |k: int| session_of(next[k]));
                assert(new_ids =~= old_ids.push(context.session_id@));
                lemma_push_to_set(old_ids, context.session_id@);
                assert(sessions@.dom() =~= session_set(next));
            }
        }
        i += 1;
    }
    assert(requests@.take(i as int) =~= requests@);
    let ghost all = tools@;
    let ghost selected = |tool: ToolEntry| session_set(requests@).contains(tool.session_id@);
    let mut kept: Vec<ToolEntry> = Vec::new();
    proof {
        reveal(Seq::filter);
        assert(all.take(0) =~= Seq::empty());
    }
    for tool in it: tools
        invariant
            it.seq() == all,
            sessions@.dom() == session_set(requests@),
            selected == (|tool: ToolEntry| session_set(requests@).contains(tool.session_id@)),
            kept@ == all.take(it.index() as int).filter(selected),
    {
        proof {
            reveal(Seq::filter);
            assert(all.take(it.index() + 1).drop_last() =~= all.take(it.index() as int));
            assert(all.take(it.index() + 1).last() == tool);
        }
        let keep = sessions.contains_key(tool.session_id.as_str());
        assert(keep == selected(tool));
        if keep {
            kept.push(tool);
        }
    }
    assert(all.take(all.len() as int) =~= all);
    kept
}

} // verus!
