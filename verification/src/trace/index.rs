//! Totals of a selection of requests, taken one at a time.

use crate::contracts::{TraceManifest, TraceRequest};
use crate::digest::{hex_encode, hex_of};
use crate::text::{debug_quoted, quoted};
use crate::trace::load::{increasing, insert_size, lemma_increasing_length, lemma_push_to_set, listed, listed_text};
use std::collections::HashSet;
use vstd::hash_map::StringHashMap;
use vstd::prelude::*;

verus! {

/// Why a trace yields no selection. Messages differ between a trace in memory and a stored one.
#[derive(Debug)]
pub enum SelectionError {
    NoPaths,
    NoBatch,
    NoRequests,
    NoSession { session_id: String },
    Nothing { stored: bool },
    Duplicate { request_id: String },
    InputOverflow,
    OutputOverflow,
    BlockSizes { sizes: Vec<usize>, stored: bool },
}

/// Mathematical view of a [`SelectionError`].
pub enum SelectionFailure {
    NoPaths,
    NoBatch,
    NoRequests,
    NoSession { session_id: Seq<char> },
    Nothing { stored: bool },
    Duplicate { request_id: Seq<char> },
    InputOverflow,
    OutputOverflow,
    BlockSizes { sizes: Set<usize>, stored: bool },
}

impl View for SelectionError {
    type V = SelectionFailure;

    open spec fn view(&self) -> SelectionFailure {
        match self {
            SelectionError::NoPaths => SelectionFailure::NoPaths,
            SelectionError::NoBatch => SelectionFailure::NoBatch,
            SelectionError::NoRequests => SelectionFailure::NoRequests,
            SelectionError::NoSession { session_id } => SelectionFailure::NoSession { session_id: session_id@ },
            SelectionError::Nothing { stored } => SelectionFailure::Nothing { stored: *stored },
            SelectionError::Duplicate { request_id } => SelectionFailure::Duplicate { request_id: request_id@ },
            SelectionError::InputOverflow => SelectionFailure::InputOverflow,
            SelectionError::OutputOverflow => SelectionFailure::OutputOverflow,
            SelectionError::BlockSizes { sizes, stored } => SelectionFailure::BlockSizes {
                sizes: sizes@.to_set(),
                stored: *stored,
            },
        }
    }
}

impl SelectionError {
    /// The message.
    pub open spec fn text(self) -> Seq<char> {
        match self {
            SelectionError::NoPaths => "at least one trace path is required"@,
            SelectionError::NoBatch => "trace request batch size must be greater than zero"@,
            SelectionError::NoRequests => "the trace contains no request_end records"@,
            SelectionError::NoSession { session_id } => "the trace contains no requests for session "@ + quoted(
                session_id@,
            ),
            SelectionError::Nothing { stored } => if stored {
                "the selected trace contains no requests"@
            } else {
                "trace has no requests"@
            },
            SelectionError::Duplicate { request_id } => "duplicate request_id "@ + request_id@,
            SelectionError::InputOverflow => "input token count overflow"@,
            SelectionError::OutputOverflow => "output token count overflow"@,
            SelectionError::BlockSizes { sizes, stored } => if stored {
                "shape-strict replay requires one trace_block_size, found ["@ + listed(sizes@) + "]"@
            } else {
                "shape-strict replay requires one trace_block_size, found {"@ + listed(sizes@) + "}"@
            },
        }
    }

    /// The message.
    pub fn message(&self) -> (text: String)
        ensures
            text@ == self.text(),
    {
        match self {
            SelectionError::NoPaths => "at least one trace path is required".to_string(),
            SelectionError::NoBatch => "trace request batch size must be greater than zero".to_string(),
            SelectionError::NoRequests => "the trace contains no request_end records".to_string(),
            SelectionError::NoSession { session_id } => {
                let mut text = "the trace contains no requests for session ".to_string();
                text.append(debug_quoted(session_id.as_str()).as_str());
                text
            },
            SelectionError::Nothing { stored } => if *stored {
                "the selected trace contains no requests".to_string()
            } else {
                "trace has no requests".to_string()
            },
            SelectionError::Duplicate { request_id } => {
                let mut text = "duplicate request_id ".to_string();
                text.append(request_id.as_str());
                text
            },
            SelectionError::InputOverflow => "input token count overflow".to_string(),
            SelectionError::OutputOverflow => "output token count overflow".to_string(),
            SelectionError::BlockSizes { sizes, stored } => {
                if *stored {
                    let mut text = "shape-strict replay requires one trace_block_size, found [".to_string();
                    text.append(listed_text(sizes).as_str());
                    text.append("]");
                    text
                } else {
                    let mut text = "shape-strict replay requires one trace_block_size, found {".to_string();
                    text.append(listed_text(sizes).as_str());
                    text.append("}");
                    text
                }
            },
        }
    }
}

/// The identifiers of the requests.
pub open spec fn id_set(requests: Seq<TraceRequest>) -> Set<Seq<char>> {
    Seq::new(requests.len(), |i: int| requests[i].source_request_id@).to_set()
}

/// The hashes of the requests.
pub open spec fn request_hashes(requests: Seq<TraceRequest>) -> Set<u64>
    decreases requests.len(),
{
    if requests.len() == 0 {
        Set::empty()
    } else {
        request_hashes(requests.drop_last()).union(requests.last().input_sequence_hashes@.to_set())
    }
}

/// The sessions of the requests that have a context.
pub open spec fn sessions_of(requests: Seq<TraceRequest>) -> Set<Seq<char>>
    decreases requests.len(),
{
    if requests.len() == 0 {
        Set::empty()
    } else {
        let before = sessions_of(requests.drop_last());
        match requests.last().agent_context {
            Some(context) => before.insert(context.session_id@),
            None => before,
        }
    }
}

/// How many requests have a context.
pub open spec fn contexts_in(requests: Seq<TraceRequest>) -> nat
    decreases requests.len(),
{
    if requests.len() == 0 {
        0
    } else {
        contexts_in(requests.drop_last()) + if requests.last().agent_context is Some {
            1nat
        } else {
            0nat
        }
    }
}

/// The block sizes of the requests.
pub open spec fn sizes_of(requests: Seq<TraceRequest>) -> Set<usize> {
    Seq::new(requests.len(), |i: int| requests[i].trace_block_size).to_set()
}

/// The sums of the input and output lengths.
pub open spec fn sums_of(requests: Seq<TraceRequest>) -> (nat, nat)
    decreases requests.len(),
{
    if requests.len() == 0 {
        (0, 0)
    } else {
        let (input, output) = sums_of(requests.drop_last());
        (input + requests.last().input_tokens as nat, output + requests.last().output_tokens as nat)
    }
}

/// Why one more request cannot be added to `taken`.
pub open spec fn addition_failure(taken: Seq<TraceRequest>, request: TraceRequest) -> Option<SelectionFailure> {
    let (input, output) = sums_of(taken);
    if id_set(taken).contains(request.source_request_id@) {
        Some(SelectionFailure::Duplicate { request_id: request.source_request_id@ })
    } else if input + request.input_tokens > u64::MAX {
        Some(SelectionFailure::InputOverflow)
    } else if output + request.output_tokens > u64::MAX {
        Some(SelectionFailure::OutputOverflow)
    } else {
        None
    }
}

/// Why the first `n` requests cannot be added one after the other.
pub open spec fn selection_failure(requests: Seq<TraceRequest>, n: nat) -> Option<SelectionFailure>
    decreases n,
{
    if n == 0 {
        None
    } else {
        match selection_failure(requests, (n - 1) as nat) {
            Some(failure) => Some(failure),
            None => addition_failure(requests.take(n - 1), requests[n - 1]),
        }
    }
}

/// Why a selection has no manifest.
pub open spec fn totals_failure(requests: Seq<TraceRequest>, stored: bool) -> Option<SelectionFailure> {
    if requests.len() == 0 {
        Some(SelectionFailure::Nothing { stored })
    } else if sizes_of(requests).len() != 1 {
        Some(SelectionFailure::BlockSizes { sizes: sizes_of(requests), stored })
    } else {
        None
    }
}

/// `manifest` totals `requests`, which come from a source with the given digest.
pub open spec fn is_totals(manifest: TraceManifest, requests: Seq<TraceRequest>, digest: Seq<u8>) -> bool {
    let first = requests.first().request_received_ms;
    let last = requests.last().request_received_ms;
    &&& manifest.request_count == requests.len()
    &&& manifest.session_count == sessions_of(requests).len()
    &&& manifest.requests_with_agent_context == contexts_in(requests)
    &&& manifest.first_request_received_ms == first
    &&& manifest.last_request_received_ms == last
    &&& manifest.duration_ms == if last > first {
        last - first
    } else {
        0
    }
    &&& (manifest.input_tokens as nat, manifest.output_tokens as nat) == sums_of(requests)
    &&& manifest.distinct_sequence_hashes == request_hashes(requests).len()
    &&& manifest.trace_block_size == requests.first().trace_block_size
    &&& manifest.source_digest_sha256@ == hex_of(digest)
}

/// Adds up requests.
pub struct SelectionIndex {
    taken: Ghost<Seq<TraceRequest>>,
    count: usize,
    request_ids: StringHashMap<bool>,
    sessions: StringHashMap<bool>,
    hashes: HashSet<u64>,
    sizes: Vec<usize>,
    first: u64,
    last: u64,
    first_size: usize,
    input_tokens: u64,
    output_tokens: u64,
    contexts: usize,
}

impl SelectionIndex {
    /// The requests so far.
    pub closed spec fn requests(&self) -> Seq<TraceRequest> {
        self.taken@
    }

    /// The books agree with the requests.
    pub closed spec fn wf(&self) -> bool {
        let taken = self.taken@;
        &&& self.count == taken.len()
        &&& self.request_ids@.dom() == id_set(taken)
        &&& self.sessions@.dom() == sessions_of(taken)
        &&& self.hashes@ == request_hashes(taken)
        &&& increasing(self.sizes@)
        &&& self.sizes@.to_set() == sizes_of(taken)
        &&& sums_of(taken) == (self.input_tokens as nat, self.output_tokens as nat)
        &&& self.contexts == contexts_in(taken)
        &&& self.contexts <= self.count
        &&& taken.len() > 0 ==> self.first == taken.first().request_received_ms && self.last
            == taken.last().request_received_ms && self.first_size == taken.first().trace_block_size
    }

    pub fn new() -> (index: Self)
        ensures
            index.wf(),
            index.requests() == Seq::<TraceRequest>::empty(),
    {
        let index = SelectionIndex {
            taken: Ghost(Seq::empty()),
            count: 0,
            request_ids: StringHashMap::new(),
            sessions: StringHashMap::new(),
            hashes: HashSet::new(),
            sizes: Vec::new(),
            first: 0,
            last: 0,
            first_size: 0,
            input_tokens: 0,
            output_tokens: 0,
            contexts: 0,
        };
        proof {
            assert(index.request_ids@.dom() =~= id_set(index.taken@));
            assert(index.sessions@.dom() =~= sessions_of(index.taken@));
            assert(index.hashes@ =~= request_hashes(index.taken@));
            assert(index.sizes@.to_set() =~= sizes_of(index.taken@));
        }
        index
    }

    /// How many requests there are so far.
    pub fn len(&self) -> (count: usize)
        requires
            self.wf(),
        ensures
            count == self.requests().len(),
    {
        self.count
    }

    /// Adds a request.
    #[verifier::rlimit(30)]
    pub fn add_request(&mut self, request: &TraceRequest) -> (result: Result<(), SelectionError>)
        requires
            old(self).wf(),
            old(self).requests().len() < usize::MAX,
        ensures
            match result {
                Ok(()) => addition_failure(old(self).requests(), *request) is None && final(self).wf()
                    && final(self).requests() == old(self).requests().push(*request),
                Err(error) => addition_failure(old(self).requests(), *request) == Some(error@)
                    && final(self).requests() == old(self).requests(),
            },
    {
        broadcast use vstd::std_specs::hash::group_hash_axioms;

        let ghost past = self.taken@;
        let ghost next = past.push(*request);
        proof {
            assert(next.drop_last() =~= past);
            let old_ids = Seq::new(past.len(), |k: int| past[k].source_request_id@);
            let new_ids = Seq::new(next.len(), |k: int| next[k].source_request_id@);
            assert(new_ids =~= old_ids.push(request.source_request_id@));
            lemma_push_to_set(old_ids, request.source_request_id@);
            let old_sizes = Seq::new(past.len(), |k: int| past[k].trace_block_size);
            let new_sizes = Seq::new(next.len(), |k: int| next[k].trace_block_size);
            assert(new_sizes =~= old_sizes.push(request.trace_block_size));
            lemma_push_to_set(old_sizes, request.trace_block_size);
        }
        if self.request_ids.contains_key(request.source_request_id.as_str()) {
            return Err(SelectionError::Duplicate { request_id: request.source_request_id.clone() });
        }
        let input_tokens = match self.input_tokens.checked_add(request.input_tokens as u64) {
            Some(sum) => sum,
            None => return Err(SelectionError::InputOverflow),
        };
        let output_tokens = match self.output_tokens.checked_add(request.output_tokens as u64) {
            Some(sum) => sum,
            None => return Err(SelectionError::OutputOverflow),
        };
        self.request_ids.insert(request.source_request_id.clone(), true);
        insert_size(&mut self.sizes, request.trace_block_size);
        let list = &request.input_sequence_hashes;
        let ghost before = self.hashes@;
        let mut j: usize = 0;
        assert(list@.take(0).to_set() =~= Set::<u64>::empty());
        assert(before =~= before.union(list@.take(0).to_set()));
        let mut hashes: HashSet<u64> = HashSet::new();
        std::mem::swap(&mut hashes, &mut self.hashes);
        while j < list.len()
            invariant
                j <= list@.len(),
                hashes@ == before.union(list@.take(j as int).to_set()),
            decreases list@.len() - j,
        {
            broadcast use vstd::std_specs::hash::group_hash_axioms;

            hashes.insert(list[j]);
            proof {
                assert(list@.take(j + 1) =~= list@.take(j as int).push(list@[j as int]));
                lemma_push_to_set(list@.take(j as int), list@[j as int]);
                assert(hashes@ =~= before.union(list@.take(j + 1).to_set()));
            }
            j += 1;
        }
        assert(list@.take(j as int) =~= list@);
        self.hashes = hashes;
        if let Some(context) = &request.agent_context {
            self.contexts = self.contexts + 1;
            self.sessions.insert(context.session_id.clone(), true);
        }
        if self.count == 0 {
            self.first = request.request_received_ms;
            self.first_size = request.trace_block_size;
        }
        self.last = request.request_received_ms;
        self.input_tokens = input_tokens;
        self.output_tokens = output_tokens;
        self.count = self.count + 1;
        proof {
            self.taken@ = next;
            assert(self.request_ids@.dom() =~= id_set(next));
            assert(self.sessions@.dom() =~= sessions_of(next));
            assert(self.hashes@ =~= request_hashes(next));
            assert(self.sizes@.to_set() =~= sizes_of(next));
            assert(next.first() == (if past.len() > 0 {
                past.first()
            } else {
                *request
            }));
        }
        Ok(())
    }

    /// Totals the requests.
    pub fn finish(self, digest: &[u8], stored: bool) -> (result: Result<TraceManifest, SelectionError>)
        requires
            self.wf(),
        ensures
            match result {
                Ok(manifest) => totals_failure(self.requests(), stored) is None && is_totals(
                    manifest,
                    self.requests(),
                    digest@,
                ),
                Err(error) => totals_failure(self.requests(), stored) == Some(error@) && (
                error matches SelectionError::BlockSizes { sizes, .. } ==> increasing(sizes@)),
            },
    {
        if self.count == 0 {
            return Err(SelectionError::Nothing { stored });
        }
        proof {
            lemma_increasing_length(self.sizes@);
        }
        if self.sizes.len() != 1 {
            return Err(SelectionError::BlockSizes { sizes: self.sizes, stored });
        }
        Ok(
            TraceManifest {
                request_count: self.count,
                session_count: self.sessions.len(),
                requests_with_agent_context: self.contexts,
                first_request_received_ms: self.first,
                last_request_received_ms: self.last,
                duration_ms: self.last.saturating_sub(self.first),
                input_tokens: self.input_tokens,
                output_tokens: self.output_tokens,
                distinct_sequence_hashes: self.hashes.len(),
                trace_block_size: self.first_size,
                source_digest_sha256: hex_encode(digest),
            },
        )
    }
}

/// Totals a list of requests.
pub fn total_requests(requests: &Vec<TraceRequest>, digest: &[u8]) -> (result: Result<
    TraceManifest,
    SelectionError,
>)
    ensures
        match result {
            Ok(manifest) => selection_failure(requests@, requests@.len()) is None && totals_failure(requests@, false)
                is None && is_totals(manifest, requests@, digest@),
            Err(error) => (match selection_failure(requests@, requests@.len()) {
                Some(failure) => failure == error@,
                None => totals_failure(requests@, false) == Some(error@),
            }) && (error matches SelectionError::BlockSizes { sizes, .. } ==> increasing(sizes@)),
        },
{
    let mut index = SelectionIndex::new();
    let mut i: usize = 0;
    assert(requests@.take(0) =~= Seq::<TraceRequest>::empty());
    while i < requests.len()
        invariant
            i <= requests@.len(),
            index.wf(),
            index.requests() == requests@.take(i as int),
            selection_failure(requests@, i as nat) is None,
        decreases requests@.len() - i,
    {
        match index.add_request(&requests[i]) {
            Ok(()) => {},
            Err(error) => {
                proof {
                    lemma_selection_failure_stands(requests@, (i + 1) as nat, requests@.len());
                }
                return Err(error);
            },
        }
        i += 1;
        assert(requests@.take(i as int) =~= requests@.take(i - 1).push(requests@[i - 1]));
    }
    assert(requests@.take(i as int) =~= requests@);
    index.finish(digest, false)
}

proof fn lemma_selection_failure_stands(requests: Seq<TraceRequest>, m: nat, n: nat)
    requires
        m <= n,
        selection_failure(requests, m) is Some,
    ensures
        selection_failure(requests, n) == selection_failure(requests, m),
    decreases n,
{
    if m < n {
        lemma_selection_failure_stands(requests, m, (n - 1) as nat);
    }
}

} // verus!
