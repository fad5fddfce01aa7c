//! Loading without a causal graph: requests in the order of their arrival.

use crate::contracts::{TraceManifest, TraceRequest};
use crate::digest::{sha256, LineDigest};
use crate::json::{field_of, json_value, print_value, printed, read_json, JsonView};
use crate::ordered::{is_sorted, sort, Ranked};
use crate::text::same_text;
use crate::trace::index::{
    is_totals, selection_failure, total_requests, totals_failure, SelectionError, SelectionFailure,
};
use crate::trace::load::{increasing, trace_schema, LineError};
use crate::trace::record::{compile_request, request_entry, RecordError, TraceRecord};
use vstd::prelude::*;
use vstd::utf8::encode_utf8;

verus! {

/// The record of a line: what stands under `event`, else under `record`, else the line itself.
pub open spec fn record_of(line: JsonView) -> JsonView {
    match line.field("event"@) {
        Some(event) => event,
        None => match line.field("record"@) {
            Some(record) => record,
            None => line,
        },
    }
}

/// Reads a line and gives the text of its record; nothing where the line is not JSON.
pub fn record_text(line: &str) -> (result: Option<String>)
    ensures
        match json_value(encode_utf8(line@)) {
            Some(value) => result matches Some(text) && text@ == printed(record_of(value)),
            None => result is None,
        },
{
    let value = match read_json(line.as_bytes()) {
        Ok(value) => value,
        Err(_) => return None,
    };
    let record = match field_of(&value, "event") {
        Some(event) => event,
        None => match field_of(&value, "record") {
            Some(record) => record,
            None => &value,
        },
    };
    Some(print_value(record))
}

/// The request that a terminal record describes, numbered, or what is wrong with it.
pub open spec fn flat_request(record: TraceRecord, ordinal: usize) -> Result<TraceRequest, RecordError> {
    match request_entry(record) {
        Ok(entry) => Ok(TraceRequest { ordinal, ..entry.request }),
        Err(error) => Err(error),
    }
}

/// Compiles the request that a terminal record describes.
pub fn compile_flat(record: TraceRecord, ordinal: usize) -> (result: Result<TraceRequest, RecordError>)
    ensures
        result == flat_request(record, ordinal),
{
    match compile_request(record) {
        Ok(entry) => {
            let mut request = entry.request;
            request.ordinal = ordinal;
            Ok(request)
        },
        Err(error) => Err(error),
    }
}

impl Ranked for TraceRequest {
    /// By arrival, then by ordinal.
    open spec fn ranks_before(self, other: Self) -> bool {
        self.request_received_ms < other.request_received_ms || (self.request_received_ms
            == other.request_received_ms && self.ordinal <= other.ordinal)
    }

    proof fn rank_total(a: Self, b: Self) {
    }

    proof fn rank_transitive(a: Self, b: Self, c: Self) {
    }

    fn precedes(&self, other: &Self) -> (result: bool) {
        self.request_received_ms < other.request_received_ms || (self.request_received_ms
            == other.request_received_ms && self.ordinal <= other.ordinal)
    }
}

/// An ordered selection of a trace.
pub struct FlatTrace {
    pub requests: Vec<TraceRequest>,
    pub manifest: TraceManifest,
}

/// A request of the given session.
pub open spec fn belongs_to(request: TraceRequest, session: Seq<char>) -> bool {
    match request.agent_context {
        Some(context) => context.session_id@ == session,
        None => false,
    }
}

/// The requests of one session, or all of them.
pub open spec fn chosen(requests: Seq<TraceRequest>, session: Option<Seq<char>>) -> Seq<TraceRequest>
    decreases requests.len(),
{
    match session {
        None => requests,
        Some(id) => if requests.len() == 0 {
            requests
        } else {
            let before = chosen(requests.drop_last(), session);
            if belongs_to(requests.last(), id) {
                before.push(requests.last())
            } else {
                before
            }
        },
    }
}

/// The first `limit` of the requests, or all of them.
pub open spec fn capped(requests: Seq<TraceRequest>, limit: Option<usize>) -> Seq<TraceRequest> {
    match limit {
        Some(count) => if count < requests.len() {
            requests.take(count as int)
        } else {
            requests
        },
        None => requests,
    }
}

/// The requests, numbered in order.
pub open spec fn renumbered(requests: Seq<TraceRequest>) -> Seq<TraceRequest> {
    Seq::new(requests.len(), |i: int| TraceRequest { ordinal: i as usize, ..requests[i] })
}

/// Why a trace that sorts into `sorted` yields no selection.
pub open spec fn flat_failure(
    sorted: Seq<TraceRequest>,
    max_requests: Option<usize>,
    session: Option<Seq<char>>,
) -> Option<SelectionFailure> {
    if sorted.len() == 0 {
        Some(SelectionFailure::NoRequests)
    } else if session is Some && chosen(sorted, session).len() == 0 {
        Some(SelectionFailure::NoSession { session_id: session->0 })
    } else {
        let requests = renumbered(capped(chosen(sorted, session), max_requests));
        match selection_failure(requests, requests.len()) {
            Some(failure) => Some(failure),
            None => totals_failure(requests, false),
        }
    }
}

/// Tells whether a request is one of the given session.
pub fn is_of_session(request: &TraceRequest, session: &str) -> (result: bool)
    ensures
        result == belongs_to(*request, session@),
{
    match &request.agent_context {
        Some(context) => same_text(context.session_id.as_str(), session),
        None => false,
    }
}

fn choose_session(requests: Vec<TraceRequest>, session: &str) -> (kept: Vec<TraceRequest>)
    ensures
        kept@ == chosen(requests@, Some(session@)),
{
    let ghost all = requests@;
    let mut kept: Vec<TraceRequest> = Vec::new();
    assert(all.take(0) =~= Seq::<TraceRequest>::empty());
    for request in it: requests
        invariant
            it.seq() == all,
            kept@ == chosen(all.take(it.index() as int), Some(session@)),
    {
        proof {
            let next = all.take(it.index() + 1);
            assert(next.drop_last() =~= all.take(it.index() as int));
            assert(next.last() == request);
        }
        if is_of_session(&request, session) {
            kept.push(request);
        }
    }
    assert(all.take(all.len() as int) =~= all);
    kept
}

fn renumber(requests: Vec<TraceRequest>) -> (result: Vec<TraceRequest>)
    ensures
        result@ == renumbered(requests@),
{
    let ghost all = requests@;
    let mut result: Vec<TraceRequest> = Vec::with_capacity(requests.len());
    let mut ordinal: usize = 0;
    let count = requests.len();
    for request in it: requests
        invariant
            it.seq() == all,
            count == all.len(),
            ordinal == it.index(),
            result@ == renumbered(all).take(it.index() as int),
    {
        let mut numbered = request;
        numbered.ordinal = ordinal;
        result.push(numbered);
        proof {
            assert(renumbered(all)[it.index() as int] == (TraceRequest { ordinal, ..request }));
            assert(renumbered(all).take(it.index() + 1) =~= renumbered(all).take(it.index() as int).push(
                renumbered(all)[it.index() as int],
            ));
        }
        ordinal += 1;
    }
    assert(renumbered(all).take(all.len() as int) =~= renumbered(all));
    result
}

/// The effect of one record: the request it adds, nothing where it is no request, or why it
/// cannot be taken in.
pub open spec fn record_effect(record: TraceRecord, ordinal: usize) -> Result<Option<TraceRequest>, LineError> {
    if record.schema@ != trace_schema() {
        Err(LineError::Schema { schema: record.schema })
    } else if record.event_type@ != "request_end"@ {
        Ok(None)
    } else {
        match flat_request(record, ordinal) {
            Ok(request) => Ok(Some(request)),
            Err(error) => Err(LineError::Request { error }),
        }
    }
}

/// Reads one record.
pub fn read_record(record: TraceRecord, ordinal: usize) -> (result: Result<Option<TraceRequest>, LineError>)
    ensures
        result == record_effect(record, ordinal),
{
    if !same_text(record.schema.as_str(), "dynamo.request.trace.v1") {
        return Err(LineError::Schema { schema: record.schema });
    }
    if !same_text(record.event_type.as_str(), "request_end") {
        return Ok(None);
    }
    match compile_flat(record, ordinal) {
        Ok(request) => Ok(Some(request)),
        Err(error) => Err(LineError::Request { error }),
    }
}

/// Collects the lines of a trace.
pub struct FlatLoader {
    requests: Vec<TraceRequest>,
    source: LineDigest,
}

impl FlatLoader {
    /// The requests so far.
    pub closed spec fn requests(&self) -> Seq<TraceRequest> {
        self.requests@
    }

    /// The bytes of the lines so far.
    pub closed spec fn source(&self) -> Seq<u8> {
        self.source.source()
    }

    /// Starts on a trace that is spread over `paths` files.
    pub fn new(paths: usize) -> (result: Result<Self, SelectionError>)
        ensures
            match result {
                Ok(loader) => paths > 0 && loader.requests() == Seq::<TraceRequest>::empty() && loader.source()
                    == Seq::<u8>::empty(),
                Err(error) => paths == 0 && error@ == SelectionFailure::NoPaths,
            },
    {
        if paths == 0 {
            return Err(SelectionError::NoPaths);
        }
        Ok(FlatLoader { requests: Vec::new(), source: LineDigest::new() })
    }

    /// Takes in one line that is not blank: its text and its record.
    pub fn push_line(&mut self, text: &str, record: TraceRecord) -> (result: Result<(), LineError>)
        ensures
            final(self).source() == old(self).source() + encode_utf8(text@).push(10),
            match record_effect(record, old(self).requests().len() as usize) {
                Ok(Some(request)) => result == Ok::<(), LineError>(()) && final(self).requests()
                    == old(self).requests().push(request),
                Ok(None) => result == Ok::<(), LineError>(()) && final(self).requests() == old(self).requests(),
                Err(error) => result == Err::<(), LineError>(error) && final(self).requests()
                    == old(self).requests(),
            },
    {
        self.source.push_line(text);
        match read_record(record, self.requests.len()) {
            Ok(Some(request)) => {
                self.requests.push(request);
                Ok(())
            },
            Ok(None) => Ok(()),
            Err(error) => Err(error),
        }
    }

    /// Orders, selects and numbers the requests.
    pub fn finish(self, max_requests: Option<usize>, session_id: Option<&str>) -> (result: Result<
        FlatTrace,
        SelectionError,
    >)
        ensures
            exists|sorted: Seq<TraceRequest>|
                {
                    let wanted = match session_id {
                        Some(id) => Some(id@),
                        None => None,
                    };
                    &&& is_sorted(sorted)
                    &&& #[trigger] sorted.to_multiset() == self.requests().to_multiset()
                    &&& match result {
                        Ok(trace) => {
                            &&& flat_failure(sorted, max_requests, wanted) is None
                            &&& trace.requests@ == renumbered(capped(chosen(sorted, wanted), max_requests))
                            &&& is_totals(trace.manifest, trace.requests@, sha256(self.source()))
                        },
                        Err(error) => flat_failure(sorted, max_requests, wanted) == Some(error@),
                    }
                },
            result matches Err(SelectionError::BlockSizes { sizes, .. }) ==> increasing(sizes@),
    {
        let FlatLoader { requests, source } = self;
        let sorted = sort(requests);
        let ghost order = sorted@;
        let ghost wanted = match session_id {
            Some(id) => Some(id@),
            None => None::<Seq<char>>,
        };
        assert(is_sorted(order) && order.to_multiset() == self.requests().to_multiset());
        if sorted.len() == 0 {
            return Err(SelectionError::NoRequests);
        }
        let mut kept = match session_id {
            None => sorted,
            Some(id) => {
                let kept = choose_session(sorted, id);
                if kept.len() == 0 {
                    return Err(SelectionError::NoSession { session_id: id.to_string() });
                }
                kept
            },
        };
        assert(kept@ == chosen(order, wanted));
        if let Some(limit) = max_requests {
            if limit < kept.len() {
                kept.truncate(limit);
                assert(kept@ =~= chosen(order, wanted).take(limit as int));
            }
        }
        let requests = renumber(kept);
        let digest = source.finish();
        match total_requests(&requests, digest.as_slice()) {
            Ok(manifest) => Ok(FlatTrace { requests, manifest }),
            Err(error) => Err(error),
        }
    }
}

} // verus!
