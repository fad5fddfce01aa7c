//! Agentic lowering: from an ordered selection of requests to a causal graph of turns.

use crate::contracts::{clone_optional, optional_text, TraceManifest, TraceRequest};
use crate::groups::places;
use crate::numeric::{elapsed, elapsed_ms};
use crate::ordered::is_sorted;
use crate::text::{
    decimal, decimal_text, lemma_bytes_order_total, lemma_bytes_order_transitive, same_text, text_at_or_before, text_precedes,
};
use crate::trace::dag::{
    as_ints, can_be_ordered, first_stray, has_order, is_acyclic, is_closed, is_first_stray, is_stray, lemma_stray_has_no_order,
    lists,
    push_unique, ranked_by,
};
use crate::trace::load::{
    is_loaded, lemma_token_totals_contexts, load_failure, session_of, LoadError, LoadedTrace, TraceLoader,
};
use crate::trace::record::{RequestEntry, ToolEntry};
use crate::trace::spans::{group_tools, measure_tools, tool_sessions, tool_time};
use vstd::hash_map::StringHashMap;
use vstd::prelude::*;
use vstd::utf8::encode_utf8;

verus! {

/// A workload as a causal graph.
#[derive(Debug)]
pub struct AgenticTrace {
    pub manifest: TraceManifest,
    pub turns: Vec<AgenticTurn>,
}

/// One request and what it waits for: an arrival time, or other turns and a delay after them. The
/// delay is the sum of the time that tools took and the rest.
#[derive(Debug)]
pub struct AgenticTurn {
    pub request: TraceRequest,
    pub dependencies: Vec<usize>,
    pub root_arrival_ms: Option<u64>,
    pub delay_after_dependencies_ms: u64,
    pub tool_delay_ms: u64,
    pub other_delay_ms: u64,
}

/// Why a selection has no causal graph.
#[derive(Debug)]
pub enum LowerError {
    NoRequests,
    DuplicateRequest { request_id: String },
    ConflictingParents { session_id: String, existing: String, parent: String },
    UnsupportedMode { tool_call_id: String, mode: String },
    UnknownRequest { tool_call_id: String, request_id: String },
    ForeignRequest { tool_call_id: String, request_id: String },
    DuplicateChild { session_id: String },
    UnknownSource { tool_call_id: String, request_id: String },
    ForeignSource { tool_call_id: String, request_id: String, parent: String },
    ForeignConsumer { tool_call_id: String, request_id: String, parent: String },
    UnknownDependency { request_id: String, index: usize },
    SelfDependency { request_id: String },
    Cycle,
}

/// Mathematical view of a [`LowerError`].
pub enum LowerFailure {
    NoRequests,
    DuplicateRequest { request_id: Seq<char> },
    ConflictingParents { session_id: Seq<char>, existing: Seq<char>, parent: Seq<char> },
    UnsupportedMode { tool_call_id: Seq<char>, mode: Seq<char> },
    UnknownRequest { tool_call_id: Seq<char>, request_id: Seq<char> },
    ForeignRequest { tool_call_id: Seq<char>, request_id: Seq<char> },
    DuplicateChild { session_id: Seq<char> },
    UnknownSource { tool_call_id: Seq<char>, request_id: Seq<char> },
    ForeignSource { tool_call_id: Seq<char>, request_id: Seq<char>, parent: Seq<char> },
    ForeignConsumer { tool_call_id: Seq<char>, request_id: Seq<char>, parent: Seq<char> },
    UnknownDependency { request_id: Seq<char>, index: usize },
    SelfDependency { request_id: Seq<char> },
    Cycle,
}

impl View for LowerError {
    type V = LowerFailure;

    open spec fn view(&self) -> LowerFailure {
        match self {
            LowerError::NoRequests => LowerFailure::NoRequests,
            LowerError::DuplicateRequest { request_id } => LowerFailure::DuplicateRequest {
                request_id: request_id@,
            },
            LowerError::ConflictingParents { session_id, existing, parent } => LowerFailure::ConflictingParents {
                session_id: session_id@,
                existing: existing@,
                parent: parent@,
            },
            LowerError::UnsupportedMode { tool_call_id, mode } => LowerFailure::UnsupportedMode {
                tool_call_id: tool_call_id@,
                mode: mode@,
            },
            LowerError::UnknownRequest { tool_call_id, request_id } => LowerFailure::UnknownRequest {
                tool_call_id: tool_call_id@,
                request_id: request_id@,
            },
            LowerError::ForeignRequest { tool_call_id, request_id } => LowerFailure::ForeignRequest {
                tool_call_id: tool_call_id@,
                request_id: request_id@,
            },
            LowerError::DuplicateChild { session_id } => LowerFailure::DuplicateChild { session_id: session_id@ },
            LowerError::UnknownSource { tool_call_id, request_id } => LowerFailure::UnknownSource {
                tool_call_id: tool_call_id@,
                request_id: request_id@,
            },
            LowerError::ForeignSource { tool_call_id, request_id, parent } => LowerFailure::ForeignSource {
                tool_call_id: tool_call_id@,
                request_id: request_id@,
                parent: parent@,
            },
            LowerError::ForeignConsumer { tool_call_id, request_id, parent } => LowerFailure::ForeignConsumer {
                tool_call_id: tool_call_id@,
                request_id: request_id@,
                parent: parent@,
            },
            LowerError::UnknownDependency { request_id, index } => LowerFailure::UnknownDependency {
                request_id: request_id@,
                index: *index,
            },
            LowerError::SelfDependency { request_id } => LowerFailure::SelfDependency { request_id: request_id@ },
            LowerError::Cycle => LowerFailure::Cycle,
        }
    }
}

impl LowerFailure {
    /// The words of the error.
    pub open spec fn text(self) -> Seq<char> {
        match self {
            LowerFailure::NoRequests => "no request records to lower"@,
            LowerFailure::DuplicateRequest { request_id } => "duplicate request_id "@ + request_id,
            LowerFailure::ConflictingParents { session_id, existing, parent } => "session "@ + session_id
                + " has conflicting parent_session_id values: "@ + existing + " and "@ + parent,
            LowerFailure::UnsupportedMode { tool_call_id, mode } => "tool "@ + tool_call_id
                + " has unsupported execution_mode "@ + mode,
            LowerFailure::UnknownRequest { tool_call_id, request_id } => "tool "@ + tool_call_id
                + " references unknown request_id "@ + request_id,
            LowerFailure::ForeignRequest { tool_call_id, request_id } => "tool "@ + tool_call_id + " request "@
                + request_id + " belongs to a different session"@,
            LowerFailure::DuplicateChild { session_id } => "multiple tool events reference child session "@
                + session_id,
            LowerFailure::UnknownSource { tool_call_id, request_id } => "tool "@ + tool_call_id
                + " references unknown source request "@ + request_id,
            LowerFailure::ForeignSource { tool_call_id, request_id, parent } => "tool "@ + tool_call_id
                + " source request "@ + request_id + " is not in parent session "@ + parent,
            LowerFailure::ForeignConsumer { tool_call_id, request_id, parent } => "tool "@ + tool_call_id
                + " consumer request "@ + request_id + " is not in parent session "@ + parent,
            LowerFailure::UnknownDependency { request_id, index } => "request "@ + request_id
                + " depends on unknown request index "@ + decimal(index as nat),
            LowerFailure::SelfDependency { request_id } => "request "@ + request_id + " cannot depend on itself"@,
            LowerFailure::Cycle => "agentic request dependencies contain a cycle"@,
        }
    }
}

fn phrase(a: &str, b: &str, c: &str, d: &str, e: &str, f: &str) -> (text: String)
    ensures
        text@ == a@ + b@ + c@ + d@ + e@ + f@,
{
    let mut text = a.to_string();
    text.append(b);
    text.append(c);
    text.append(d);
    text.append(e);
    text.append(f);
    text
}

impl LowerError {
    /// Puts the error in words.
    pub fn message(&self) -> (text: String)
        ensures
            text@ == self@.text(),
    {
        proof {
            reveal_strlit("");
        }
        let text = match self {
            LowerError::NoRequests => "no request records to lower".to_string(),
            LowerError::DuplicateRequest { request_id } => phrase(
                "duplicate request_id ",
                request_id.as_str(),
                "",
                "",
                "",
                "",
            ),
            LowerError::ConflictingParents { session_id, existing, parent } => phrase(
                "session ",
                session_id.as_str(),
                " has conflicting parent_session_id values: ",
                existing.as_str(),
                " and ",
                parent.as_str(),
            ),
            LowerError::UnsupportedMode { tool_call_id, mode } => phrase(
                "tool ",
                tool_call_id.as_str(),
                " has unsupported execution_mode ",
                mode.as_str(),
                "",
                "",
            ),
            LowerError::UnknownRequest { tool_call_id, request_id } => phrase(
                "tool ",
                tool_call_id.as_str(),
                " references unknown request_id ",
                request_id.as_str(),
                "",
                "",
            ),
            LowerError::ForeignRequest { tool_call_id, request_id } => phrase(
                "tool ",
                tool_call_id.as_str(),
                " request ",
                request_id.as_str(),
                " belongs to a different session",
                "",
            ),
            LowerError::DuplicateChild { session_id } => phrase(
                "multiple tool events reference child session ",
                session_id.as_str(),
                "",
                "",
                "",
                "",
            ),
            LowerError::UnknownSource { tool_call_id, request_id } => phrase(
                "tool ",
                tool_call_id.as_str(),
                " references unknown source request ",
                request_id.as_str(),
                "",
                "",
            ),
            LowerError::ForeignSource { tool_call_id, request_id, parent } => phrase(
                "tool ",
                tool_call_id.as_str(),
                " source request ",
                request_id.as_str(),
                " is not in parent session ",
                parent.as_str(),
            ),
            LowerError::ForeignConsumer { tool_call_id, request_id, parent } => phrase(
                "tool ",
                tool_call_id.as_str(),
                " consumer request ",
                request_id.as_str(),
                " is not in parent session ",
                parent.as_str(),
            ),
            LowerError::UnknownDependency { request_id, index } => phrase(
                "request ",
                request_id.as_str(),
                " depends on unknown request index ",
                decimal_text(*index as u64).as_str(),
                "",
                "",
            ),
            LowerError::SelfDependency { request_id } => phrase(
                "request ",
                request_id.as_str(),
                " cannot depend on itself",
                "",
                "",
                "",
            ),
            LowerError::Cycle => "agentic request dependencies contain a cycle".to_string(),
        };
        assert(text@ =~= self@.text());
        text
    }
}

// ---------------------------------------------------------------------------------------------
// The graph that a selection stands for
// ---------------------------------------------------------------------------------------------

/// Every request tells its session.
pub open spec fn have_contexts(requests: Seq<RequestEntry>) -> bool {
    forall|i: int| 0 <= i < requests.len() ==> (#[trigger] requests[i]).request.agent_context is Some
}

/// The parent session that a request names.
pub open spec fn parent_of(entry: RequestEntry) -> Option<Seq<char>> {
    optional_text(entry.request.agent_context->0.parent_session_id)
}

/// The index of the request with the given identifier, among the first `n`.
pub open spec fn find_request(requests: Seq<RequestEntry>, n: nat, id: Seq<char>) -> Option<int>
    decreases n,
{
    if n == 0 {
        None
    } else if requests[n - 1].request.source_request_id@ == id {
        Some(n - 1)
    } else {
        find_request(requests, (n - 1) as nat, id)
    }
}

/// The first of the first `n` requests whose identifier is taken.
pub open spec fn first_duplicate(requests: Seq<RequestEntry>, n: nat) -> Option<int>
    decreases n,
{
    if n == 0 {
        None
    } else {
        let i = (n - 1) as nat;
        match first_duplicate(requests, i) {
            Some(found) => Some(found),
            None => if find_request(requests, i, requests[i as int].request.source_request_id@) is Some {
                Some(i as int)
            } else {
                None
            },
        }
    }
}

/// The requests of a session among the first `n`, in order.
pub open spec fn session_requests(requests: Seq<RequestEntry>, n: nat, session: Seq<char>) -> Seq<int>
    decreases n,
{
    if n == 0 {
        Seq::empty()
    } else {
        let earlier = session_requests(requests, (n - 1) as nat, session);
        if session_of(requests[n - 1]) == session {
            earlier.push(n - 1)
        } else {
            earlier
        }
    }
}

/// The parent that a session names first among the first `n` requests.
pub open spec fn session_parent(requests: Seq<RequestEntry>, n: nat, session: Seq<char>) -> Option<Seq<char>>
    decreases n,
{
    if n == 0 {
        None
    } else {
        match session_parent(requests, (n - 1) as nat, session) {
            Some(parent) => Some(parent),
            None => if session_of(requests[n - 1]) == session {
                parent_of(requests[n - 1])
            } else {
                None
            },
        }
    }
}

/// The first of the first `n` requests that names another parent than its session did before.
pub open spec fn first_conflict(requests: Seq<RequestEntry>, n: nat) -> Option<int>
    decreases n,
{
    if n == 0 {
        None
    } else {
        let i = (n - 1) as nat;
        match first_conflict(requests, i) {
            Some(found) => Some(found),
            None => {
                let known = session_parent(requests, i, session_of(requests[i as int]));
                let named = parent_of(requests[i as int]);
                if known is Some && named is Some && known != named {
                    Some(i as int)
                } else {
                    None
                }
            },
        }
    }
}

/// The sessions among the first `n` requests, in order of their first request.
pub open spec fn sessions_in_order(requests: Seq<RequestEntry>, n: nat) -> Seq<Seq<char>>
    decreases n,
{
    if n == 0 {
        Seq::empty()
    } else {
        let earlier = sessions_in_order(requests, (n - 1) as nat);
        if earlier.contains(session_of(requests[n - 1])) {
            earlier
        } else {
            earlier.push(session_of(requests[n - 1]))
        }
    }
}

/// A session of the selection.
pub open spec fn has_session(requests: Seq<RequestEntry>, session: Seq<char>) -> bool {
    sessions_in_order(requests, requests.len()).contains(session)
}

/// What is wrong with a request that a tool call points at.
pub open spec fn reference_failure(
    requests: Seq<RequestEntry>,
    tool: ToolEntry,
    request_id: Seq<char>,
    required: bool,
) -> Option<LowerFailure> {
    if request_id.len() == 0 {
        None
    } else {
        match find_request(requests, requests.len(), request_id) {
            None => if required {
                Some(LowerFailure::UnknownRequest { tool_call_id: tool.tool_call_id@, request_id })
            } else {
                None
            },
            Some(i) => if session_of(requests[i]) != tool.session_id@ {
                Some(LowerFailure::ForeignRequest { tool_call_id: tool.tool_call_id@, request_id })
            } else {
                None
            },
        }
    }
}

/// What is wrong with the launch evidence of a tool call.
pub open spec fn tool_failure(requests: Seq<RequestEntry>, tool: ToolEntry) -> Option<LowerFailure> {
    let claude = tool.claude->0;
    if claude.execution_mode@ != "blocking"@ && claude.execution_mode@ != "background"@ {
        Some(
            LowerFailure::UnsupportedMode { tool_call_id: tool.tool_call_id@, mode: claude.execution_mode@ },
        )
    } else {
        match reference_failure(requests, tool, claude.source_request_id@, true) {
            Some(failure) => Some(failure),
            None => match claude.consumer_request_id {
                Some(consumer) => reference_failure(requests, tool, consumer@, false),
                None => None,
            },
        }
    }
}

/// Which of the first `n` tool calls launched which session.
pub open spec fn launches(
    requests: Seq<RequestEntry>,
    tools: Seq<ToolEntry>,
    n: nat,
) -> Result<Map<Seq<char>, int>, LowerFailure>
    decreases n,
{
    if n == 0 {
        Ok(Map::empty())
    } else {
        let tool = tools[n - 1];
        match launches(requests, tools, (n - 1) as nat) {
            Err(failure) => Err(failure),
            Ok(known) => if tool.claude is None {
                Ok(known)
            } else {
                match tool_failure(requests, tool) {
                    Some(failure) => Err(failure),
                    None => match optional_text(tool.claude->0.child_session_id) {
                        None => Ok(known),
                        Some(child) => if !has_session(requests, child) {
                            Ok(known)
                        } else if known.contains_key(child) {
                            Err(LowerFailure::DuplicateChild { session_id: child })
                        } else {
                            Ok(known.insert(child, n - 1))
                        },
                    },
                }
            },
        }
    }
}

/// Each request waits for the one before it in its session.
pub open spec fn chain_edges(requests: Seq<RequestEntry>, n: nat) -> Seq<(int, int)>
    decreases n,
{
    if n == 0 {
        Seq::empty()
    } else {
        let i = (n - 1) as nat;
        let earlier = session_requests(requests, i, session_of(requests[i as int]));
        if earlier.len() > 0 {
            chain_edges(requests, i).push((i as int, earlier.last()))
        } else {
            chain_edges(requests, i)
        }
    }
}

/// `a` finishes at or before `b`: by end, then by start, then by identifier.
pub open spec fn finishes_by(a: RequestEntry, b: RequestEntry) -> bool {
    if a.end_ms != b.end_ms {
        a.end_ms < b.end_ms
    } else if a.start_ms != b.start_ms {
        a.start_ms < b.start_ms
    } else {
        text_at_or_before(a.request.source_request_id@, b.request.source_request_id@)
    }
}

/// The request among `indices` that finishes last.
pub open spec fn last_finishing(requests: Seq<RequestEntry>, indices: Seq<int>) -> int
    decreases indices.len(),
{
    if indices.len() <= 1 {
        indices[0]
    } else {
        let best = last_finishing(requests, indices.drop_last());
        if finishes_by(requests[best], requests[indices.last()]) {
            indices.last()
        } else {
            best
        }
    }
}

/// The latest request among `indices` that starts at or before `timestamp_ms`.
pub open spec fn latest_start(requests: Seq<RequestEntry>, indices: Seq<int>, timestamp_ms: int) -> Option<int>
    decreases indices.len(),
{
    if indices.len() == 0 {
        None
    } else {
        let i = indices.last();
        match latest_start(requests, indices.drop_last(), timestamp_ms) {
            None => if requests[i].start_ms <= timestamp_ms {
                Some(i)
            } else {
                None
            },
            Some(best) => if requests[i].start_ms <= timestamp_ms && requests[i].start_ms
                >= requests[best].start_ms {
                Some(i)
            } else {
                Some(best)
            },
        }
    }
}

/// The earliest request among `indices` that starts at or after `timestamp_ms`.
pub open spec fn first_start(requests: Seq<RequestEntry>, indices: Seq<int>, timestamp_ms: int) -> Option<int>
    decreases indices.len(),
{
    if indices.len() == 0 {
        None
    } else {
        let i = indices.last();
        match first_start(requests, indices.drop_last(), timestamp_ms) {
            None => if requests[i].start_ms >= timestamp_ms {
                Some(i)
            } else {
                None
            },
            Some(best) => if requests[i].start_ms >= timestamp_ms && requests[i].start_ms
                < requests[best].start_ms {
                Some(i)
            } else {
                Some(best)
            },
        }
    }
}

/// The launch and join edges that the evidence of a tool call gives for the session `child`
/// under `parent`.
pub open spec fn explicit_edges(
    requests: Seq<RequestEntry>,
    tool: ToolEntry,
    child: Seq<char>,
    parent: Seq<char>,
) -> Result<Seq<(int, int)>, LowerFailure> {
    let members = session_requests(requests, requests.len(), child);
    let claude = tool.claude->0;
    match find_request(requests, requests.len(), claude.source_request_id@) {
        None => Err(
            LowerFailure::UnknownSource {
                tool_call_id: tool.tool_call_id@,
                request_id: claude.source_request_id@,
            },
        ),
        Some(spawn) => if session_of(requests[spawn]) != parent {
            Err(
                LowerFailure::ForeignSource {
                    tool_call_id: tool.tool_call_id@,
                    request_id: claude.source_request_id@,
                    parent,
                },
            )
        } else {
            let launch = seq![(members[0], spawn)];
            match claude.consumer_request_id {
                None => Ok(launch),
                Some(consumer) => match find_request(requests, requests.len(), consumer@) {
                    None => Ok(launch),
                    Some(join) => if session_of(requests[join]) != parent {
                        Err(
                            LowerFailure::ForeignConsumer {
                                tool_call_id: tool.tool_call_id@,
                                request_id: consumer@,
                                parent,
                            },
                        )
                    } else {
                        Ok(launch.push((join, last_finishing(requests, members))))
                    },
                },
            }
        },
    }
}

/// The launch and join edges that the recorded intervals suggest for the session `child` under
/// `parent`.
pub open spec fn inferred_edges(requests: Seq<RequestEntry>, child: Seq<char>, parent: Seq<char>) -> Seq<
    (int, int),
> {
    let members = session_requests(requests, requests.len(), child);
    let others = session_requests(requests, requests.len(), parent);
    let first = members[0];
    let last = last_finishing(requests, members);
    let launch = match latest_start(requests, others, requests[first].start_ms as int) {
        Some(spawn) => seq![(first, spawn)],
        None => Seq::empty(),
    };
    match first_start(requests, others, requests[last].end_ms as int) {
        Some(join) => launch.push((join, last)),
        None => launch,
    }
}

/// The launch and join edges of the first `n` sessions.
pub open spec fn family_edges(
    requests: Seq<RequestEntry>,
    tools: Seq<ToolEntry>,
    known: Map<Seq<char>, int>,
    n: nat,
) -> Result<Seq<(int, int)>, LowerFailure>
    decreases n,
{
    if n == 0 {
        Ok(Seq::empty())
    } else {
        let child = sessions_in_order(requests, requests.len())[n - 1];
        match family_edges(requests, tools, known, (n - 1) as nat) {
            Err(failure) => Err(failure),
            Ok(edges) => match session_parent(requests, requests.len(), child) {
                None => Ok(edges),
                Some(parent) => if !has_session(requests, parent) {
                    Ok(edges)
                } else if known.contains_key(child) {
                    match explicit_edges(requests, tools[known[child]], child, parent) {
                        Err(failure) => Err(failure),
                        Ok(more) => Ok(edges + more),
                    }
                } else {
                    Ok(edges + inferred_edges(requests, child, parent))
                },
            },
        }
    }
}

/// What request `i` waits for: the other ends of its edges, each one once.
pub open spec fn dependencies_of(edges: Seq<(int, int)>, i: int) -> Seq<int>
    decreases edges.len(),
{
    if edges.len() == 0 {
        Seq::empty()
    } else {
        let earlier = dependencies_of(edges.drop_last(), i);
        let (target, source) = edges.last();
        if target == i && !earlier.contains(source) {
            earlier.push(source)
        } else {
            earlier
        }
    }
}

/// The first of the first `n` requests that waits for itself.
pub open spec fn first_self_dependency(edges: Seq<(int, int)>, n: nat) -> Option<int>
    decreases n,
{
    if n == 0 {
        None
    } else {
        match first_self_dependency(edges, (n - 1) as nat) {
            Some(found) => Some(found),
            None => if dependencies_of(edges, n - 1).contains(n - 1) {
                Some(n - 1)
            } else {
                None
            },
        }
    }
}

/// `rank` grows along every edge.
pub open spec fn edges_ranked_by(edges: Seq<(int, int)>, n: nat, rank: spec_fn(int) -> nat) -> bool {
    forall|i: int, k: int|
        0 <= i < n && 0 <= k < dependencies_of(edges, i).len() ==> rank(
            #[trigger] dependencies_of(edges, i)[k],
        ) < rank(i)
}

/// The edges can be followed without coming back.
pub open spec fn edges_are_acyclic(edges: Seq<(int, int)>, n: nat) -> bool {
    exists|rank: spec_fn(int) -> nat| edges_ranked_by(edges, n, rank)
}

/// The edges of a selection, or why there are none.
pub open spec fn causal_edges(
    requests: Seq<RequestEntry>,
    tools: Seq<ToolEntry>,
) -> Result<Seq<(int, int)>, LowerFailure> {
    let n = requests.len();
    if n == 0 {
        Err(LowerFailure::NoRequests)
    } else if first_duplicate(requests, n) is Some {
        Err(
            LowerFailure::DuplicateRequest {
                request_id: requests[first_duplicate(requests, n)->0].request.source_request_id@,
            },
        )
    } else if first_conflict(requests, n) is Some {
        let i = first_conflict(requests, n)->0;
        Err(
            LowerFailure::ConflictingParents {
                session_id: session_of(requests[i]),
                existing: session_parent(requests, i as nat, session_of(requests[i]))->0,
                parent: parent_of(requests[i])->0,
            },
        )
    } else {
        match launches(requests, tools, tools.len()) {
            Err(failure) => Err(failure),
            Ok(known) => match family_edges(
                requests,
                tools,
                known,
                sessions_in_order(requests, n).len(),
            ) {
                Err(failure) => Err(failure),
                Ok(family) => {
                    let edges = chain_edges(requests, n) + family;
                    if first_self_dependency(edges, n) is Some {
                        Err(
                            LowerFailure::SelfDependency {
                                request_id: requests[first_self_dependency(
                                    edges,
                                    n,
                                )->0].request.source_request_id@,
                            },
                        )
                    } else if !edges_are_acyclic(edges, n) {
                        Err(LowerFailure::Cycle)
                    } else {
                        Ok(edges)
                    }
                },
            },
        }
    }
}

/// The earliest start of the first `n` requests.
pub open spec fn earliest_start(requests: Seq<RequestEntry>, n: nat) -> i64
    decreases n,
{
    if n <= 1 {
        requests[0].start_ms
    } else {
        let earlier = earliest_start(requests, (n - 1) as nat);
        if requests[n - 1].start_ms < earlier {
            requests[n - 1].start_ms
        } else {
            earlier
        }
    }
}

/// The latest end of the given requests, of which there is at least one.
pub open spec fn latest_end(requests: Seq<RequestEntry>, indices: Seq<int>) -> i64
    decreases indices.len(),
{
    if indices.len() <= 1 {
        requests[indices[0]].end_ms
    } else {
        let earlier = latest_end(requests, indices.drop_last());
        if requests[indices.last()].end_ms > earlier {
            requests[indices.last()].end_ms
        } else {
            earlier
        }
    }
}

/// `turn` is request `i`, waiting for the other ends of its edges: a request without any
/// arrives as long after the first one as recorded; one with some follows the last of them
/// after the recorded gap, part of which the tools of its session may have taken.
pub open spec fn is_turn(
    turn: AgenticTurn,
    requests: Seq<RequestEntry>,
    tools: Seq<ToolEntry>,
    edges: Seq<(int, int)>,
    i: int,
) -> bool {
    let dependencies = dependencies_of(edges, i);
    &&& turn.request == requests[i].request
    &&& as_ints(turn.dependencies@) == dependencies
    &&& turn.tool_delay_ms + turn.other_delay_ms == turn.delay_after_dependencies_ms
    &&& if dependencies.len() == 0 {
        &&& turn.root_arrival_ms == Some(
            elapsed(requests[i].start_ms, earliest_start(requests, requests.len())),
        )
        &&& turn.delay_after_dependencies_ms == 0
    } else {
        let completed = latest_end(requests, dependencies);
        &&& turn.root_arrival_ms is None
        &&& turn.delay_after_dependencies_ms == elapsed(requests[i].start_ms, completed)
        &&& turn.tool_delay_ms == tool_time(
            tools,
            session_of(requests[i]),
            completed as int,
            turn.delay_after_dependencies_ms as nat,
        )
    }
}

// ---------------------------------------------------------------------------------------------
// Lowering
// ---------------------------------------------------------------------------------------------

struct SessionGroup {
    id: String,
    indices: Vec<usize>,
    parent: Option<String>,
}

spec fn group_ids(groups: Seq<SessionGroup>) -> Seq<Seq<char>> {
    Seq::new(groups.len(), |g: int| groups[g].id@)
}

spec fn groups_match(groups: Seq<SessionGroup>, requests: Seq<RequestEntry>, n: nat) -> bool {
    &&& group_ids(groups) == sessions_in_order(requests, n)
    &&& forall|g: int|
        0 <= g < groups.len() ==> as_ints((#[trigger] groups[g]).indices@) == session_requests(
            requests,
            n,
            groups[g].id@,
        )
    &&& forall|g: int|
        0 <= g < groups.len() ==> optional_text((#[trigger] groups[g]).parent) == session_parent(
            requests,
            n,
            groups[g].id@,
        )
}

spec fn index_matches(index: Map<Seq<char>, usize>, ids: Seq<Seq<char>>) -> bool {
    &&& forall|s: Seq<char>| #[trigger] index.contains_key(s) <==> ids.contains(s)
    &&& forall|s: Seq<char>| #[trigger]
        index.contains_key(s) ==> index[s] < ids.len() && ids[index[s] as int] == s
}

proof fn lemma_session_requests(requests: Seq<RequestEntry>, n: nat, session: Seq<char>)
    requires
        n <= requests.len(),
    ensures
        forall|k: int|
            0 <= k < session_requests(requests, n, session).len() ==> {
                &&& 0 <= #[trigger] session_requests(requests, n, session)[k] < n
                &&& session_of(requests[session_requests(requests, n, session)[k]]) == session
            },
        session_requests(requests, n, session).len() > 0 <==> sessions_in_order(requests, n).contains(session),
    decreases n,
{
    if n > 0 {
        let m = (n - 1) as nat;
        lemma_session_requests(requests, m, session);
        let earlier = session_requests(requests, m, session);
        let now = session_requests(requests, n, session);
        assert forall|k: int| 0 <= k < now.len() implies {
            &&& 0 <= #[trigger] now[k] < n
            &&& session_of(requests[now[k]]) == session
        } by {
            if k < earlier.len() {
                assert(now[k] == earlier[k]);
            }
        }
        let before = sessions_in_order(requests, m);
        let after = sessions_in_order(requests, n);
        let added = session_of(requests[n - 1]);
        if before.contains(session) {
            let k = before.index_of(session);
            assert(after[k] == session);
        }
        if added == session {
            if !before.contains(added) {
                assert(after[before.len() as int] == session);
            }
        } else if after.contains(session) {
            let k = after.index_of(session);
            if k < before.len() {
                assert(before[k] == session);
            }
        }
    }
}

proof fn lemma_find_request(requests: Seq<RequestEntry>, n: nat, id: Seq<char>)
    requires
        n <= requests.len(),
    ensures
        find_request(requests, n, id) matches Some(i) ==> 0 <= i < n && requests[i].request.source_request_id@ == id,
    decreases n,
{
    if n > 0 {
        lemma_find_request(requests, (n - 1) as nat, id);
    }
}

fn index_requests(requests: &Vec<RequestEntry>) -> (result: Result<StringHashMap<usize>, LowerError>)
    ensures
        match result {
            Ok(ids) => {
                &&& first_duplicate(requests@, requests@.len()) is None
                &&& forall|id: Seq<char>| #[trigger]
                    ids@.contains_key(id) <==> find_request(requests@, requests@.len(), id) is Some
                &&& forall|id: Seq<char>| #[trigger]
                    ids@.contains_key(id) ==> find_request(requests@, requests@.len(), id) == Some(ids@[id] as int)
            },
            Err(error) => {
                &&& first_duplicate(requests@, requests@.len()) is Some
                &&& error@ == LowerFailure::DuplicateRequest {
                    request_id: requests@[first_duplicate(
                        requests@,
                        requests@.len(),
                    )->0].request.source_request_id@,
                }
            },
        },
{
    let mut ids: StringHashMap<usize> = StringHashMap::with_capacity(requests.len());
    let mut i: usize = 0;
    while i < requests.len()
        invariant
            i <= requests@.len(),
            first_duplicate(requests@, i as nat) is None,
            forall|id: Seq<char>| #[trigger]
                ids@.contains_key(id) <==> find_request(requests@, i as nat, id) is Some,
            forall|id: Seq<char>| #[trigger]
                ids@.contains_key(id) ==> find_request(requests@, i as nat, id) == Some(ids@[id] as int),
        decreases requests@.len() - i,
    {
        let id = &requests[i].request.source_request_id;
        if ids.contains_key(id.as_str()) {
            proof {
                lemma_first_duplicate_keeps(requests@, i as nat + 1, requests@.len());
            }
            return Err(LowerError::DuplicateRequest { request_id: id.clone() });
        }
        ids.insert(id.clone(), i);
        i += 1;
    }
    Ok(ids)
}

proof fn lemma_first_duplicate_keeps(requests: Seq<RequestEntry>, n: nat, m: nat)
    requires
        n <= m,
        first_duplicate(requests, n) is Some,
    ensures
        first_duplicate(requests, m) == first_duplicate(requests, n),
    decreases m,
{
    if n < m {
        lemma_first_duplicate_keeps(requests, n, (m - 1) as nat);
    }
}

proof fn lemma_first_conflict_keeps(requests: Seq<RequestEntry>, n: nat, m: nat)
    requires
        n <= m,
        first_conflict(requests, n) is Some,
    ensures
        first_conflict(requests, m) == first_conflict(requests, n),
    decreases m,
{
    if n < m {
        lemma_first_conflict_keeps(requests, n, (m - 1) as nat);
    }
}

fn group_sessions(requests: &Vec<RequestEntry>) -> (result: Result<
    (Vec<SessionGroup>, StringHashMap<usize>),
    LowerError,
>)
    requires
        have_contexts(requests@),
    ensures
        match result {
            Ok((groups, index)) => {
                &&& first_conflict(requests@, requests@.len()) is None
                &&& groups_match(groups@, requests@, requests@.len())
                &&& index_matches(index@, group_ids(groups@))
            },
            Err(error) => {
                let i = first_conflict(requests@, requests@.len())->0;
                &&& first_conflict(requests@, requests@.len()) is Some
                &&& error@ == LowerFailure::ConflictingParents {
                    session_id: session_of(requests@[i]),
                    existing: session_parent(requests@, i as nat, session_of(requests@[i]))->0,
                    parent: parent_of(requests@[i])->0,
                }
            },
        },
{
    let mut groups: Vec<SessionGroup> = Vec::new();
    let mut index: StringHashMap<usize> = StringHashMap::new();
    assert(group_ids(groups@) =~= Seq::<Seq<char>>::empty());
    let mut i: usize = 0;
    while i < requests.len()
        invariant
            i <= requests@.len(),
            have_contexts(requests@),
            first_conflict(requests@, i as nat) is None,
            groups_match(groups@, requests@, i as nat),
            index_matches(index@, group_ids(groups@)),
        decreases requests@.len() - i,
    {
        let ghost now = requests@[i as int];
        let context = match &requests[i].request.agent_context {
            Some(context) => context,
            None => {
                assert(false);
                return Err(LowerError::NoRequests);
            },
        };
        let ghost session = context.session_id@;
        let ghost before = groups@;
        let ghost ids = group_ids(groups@);
        let known: Option<usize> = match index.get(context.session_id.as_str()) {
            Some(found) => Some(*found),
            None => None,
        };
        match known {
            Some(g) => {
                assert(groups@[g as int].id@ == session);
                if let Some(parent) = &context.parent_session_id {
                    let existing = clone_optional(&groups[g].parent);
                    match existing {
                        Some(existing) => {
                            if !(existing == *parent) {
                                proof {
                                    lemma_first_conflict_keeps(requests@, i as nat + 1, requests@.len());
                                }
                                return Err(
                                    LowerError::ConflictingParents {
                                        session_id: context.session_id.clone(),
                                        existing,
                                        parent: parent.clone(),
                                    },
                                );
                            }
                        },
                        None => {
                            let named = Some(parent.clone());
                            groups[g].parent = named;
                        },
                    }
                }
                groups[g].indices.push(i);
                proof {
                    assert(group_ids(groups@) =~= ids);
                    assert(ids.contains(session)) by {
                        assert(ids[g as int] == session);
                    }
                    assert forall|h: int| 0 <= h < groups@.len() implies as_ints(
                        (#[trigger] groups@[h]).indices@,
                    ) == session_requests(requests@, i as nat + 1, groups@[h].id@) by {
                        if h == g {
                            assert(as_ints(groups@[h].indices@) =~= as_ints(before[h].indices@).push(i as int));
                        } else {
                            lemma_ids_differ(requests@, i as nat, h, g as int);
                            assert(groups@[h] == before[h]);
                        }
                    }
                    assert forall|h: int| 0 <= h < groups@.len() implies optional_text(
                        (#[trigger] groups@[h]).parent,
                    ) == session_parent(requests@, i as nat + 1, groups@[h].id@) by {
                        if h != g {
                            lemma_ids_differ(requests@, i as nat, h, g as int);
                            assert(groups@[h] == before[h]);
                        }
                    }
                }
            },
            None => {
                let position = groups.len();
                let mut indices: Vec<usize> = Vec::new();
                indices.push(i);
                index.insert(context.session_id.clone(), position);
                groups.push(
                    SessionGroup {
                        id: context.session_id.clone(),
                        indices,
                        parent: clone_optional(&context.parent_session_id),
                    },
                );
                proof {
                    assert(!ids.contains(session));
                    assert(group_ids(groups@) =~= ids.push(session));
                    lemma_session_requests(requests@, i as nat, session);
                    lemma_unseen_has_no_parent(requests@, i as nat, session);
                    assert(session_requests(requests@, i as nat, session) =~= Seq::<int>::empty());
                    assert forall|h: int| 0 <= h < groups@.len() implies as_ints(
                        (#[trigger] groups@[h]).indices@,
                    ) == session_requests(requests@, i as nat + 1, groups@[h].id@) by {
                        if h < before.len() {
                            assert(groups@[h] == before[h]);
                            assert(ids[h] != session);
                        } else {
                            assert(as_ints(groups@[h].indices@) =~= seq![i as int]);
                        }
                    }
                    assert forall|h: int| 0 <= h < groups@.len() implies optional_text(
                        (#[trigger] groups@[h]).parent,
                    ) == session_parent(requests@, i as nat + 1, groups@[h].id@) by {
                        if h < before.len() {
                            assert(groups@[h] == before[h]);
                            assert(ids[h] != session);
                        }
                    }
                    assert forall|s: Seq<char>| #[trigger]
                        index@.contains_key(s) <==> group_ids(groups@).contains(s) by {
                        if ids.contains(s) {
                            let k = ids.index_of(s);
                            assert(group_ids(groups@)[k] == s);
                        }
                        assert(group_ids(groups@)[ids.len() as int] == session);
                        if group_ids(groups@).contains(s) && s != session {
                            let k = group_ids(groups@).index_of(s);
                            assert(ids[k] == s);
                        }
                    }
                    assert forall|s: Seq<char>| #[trigger]
                        index@.contains_key(s) implies index@[s] < group_ids(groups@).len() && group_ids(groups@)[
                    index@[s] as int] == s by {
                        if s != session {
                            assert(ids.contains(s));
                        }
                    }
                }
            },
        }
        i += 1;
    }
    Ok((groups, index))
}

proof fn lemma_ids_differ(requests: Seq<RequestEntry>, n: nat, a: int, b: int)
    requires
        0 <= a < sessions_in_order(requests, n).len(),
        0 <= b < sessions_in_order(requests, n).len(),
        a != b,
    ensures
        sessions_in_order(requests, n)[a] != sessions_in_order(requests, n)[b],
    decreases n,
{
    if n > 0 {
        let earlier = sessions_in_order(requests, (n - 1) as nat);
        let now = sessions_in_order(requests, n);
        if a < earlier.len() && b < earlier.len() {
            lemma_ids_differ(requests, (n - 1) as nat, a, b);
            assert(now[a] == earlier[a] && now[b] == earlier[b]);
        } else if a < earlier.len() {
            assert(now[a] == earlier[a]);
            assert(earlier.contains(earlier[a]));
        } else {
            assert(now[b] == earlier[b]);
            assert(earlier.contains(earlier[b]));
        }
    }
}

proof fn lemma_unseen_has_no_parent(requests: Seq<RequestEntry>, n: nat, session: Seq<char>)
    requires
        n <= requests.len(),
        !sessions_in_order(requests, n).contains(session),
    ensures
        session_parent(requests, n, session) is None,
    decreases n,
{
    if n > 0 {
        let m = (n - 1) as nat;
        let before = sessions_in_order(requests, m);
        let after = sessions_in_order(requests, n);
        if before.contains(session) {
            let k = before.index_of(session);
            assert(after[k] == session);
        }
        if session_of(requests[n - 1]) == session {
            assert(after[after.len() - 1] == session || before.contains(session));
        }
        lemma_unseen_has_no_parent(requests, m, session);
    }
}

fn check_reference(
    requests: &Vec<RequestEntry>,
    ids: &StringHashMap<usize>,
    tool: &ToolEntry,
    request_id: &String,
    required: bool,
) -> (result: Option<LowerError>)
    requires
        have_contexts(requests@),
        forall|id: Seq<char>| #[trigger]
            ids@.contains_key(id) <==> find_request(requests@, requests@.len(), id) is Some,
        forall|id: Seq<char>| #[trigger]
            ids@.contains_key(id) ==> find_request(requests@, requests@.len(), id) == Some(ids@[id] as int),
    ensures
        match result {
            Some(error) => reference_failure(requests@, *tool, request_id@, required) == Some(error@),
            None => reference_failure(requests@, *tool, request_id@, required) is None,
        },
{
    if request_id.as_str().is_empty() {
        return None;
    }
    proof {
        lemma_find_request(requests@, requests@.len(), request_id@);
    }
    match ids.get(request_id.as_str()) {
        None => if required {
            Some(
                LowerError::UnknownRequest {
                    tool_call_id: tool.tool_call_id.clone(),
                    request_id: request_id.clone(),
                },
            )
        } else {
            None
        },
        Some(found) => {
            assert(have_contexts(requests@));
            let same = match &requests[*found].request.agent_context {
                Some(context) => context.session_id == tool.session_id,
                None => false,
            };
            if !same {
                Some(
                    LowerError::ForeignRequest {
                        tool_call_id: tool.tool_call_id.clone(),
                        request_id: request_id.clone(),
                    },
                )
            } else {
                None
            }
        },
    }
}

fn index_launches(
    requests: &Vec<RequestEntry>,
    tools: &Vec<ToolEntry>,
    ids: &StringHashMap<usize>,
    index: &StringHashMap<usize>,
) -> (result: Result<StringHashMap<usize>, LowerError>)
    requires
        have_contexts(requests@),
        forall|id: Seq<char>| #[trigger]
            ids@.contains_key(id) <==> find_request(requests@, requests@.len(), id) is Some,
        forall|id: Seq<char>| #[trigger]
            ids@.contains_key(id) ==> find_request(requests@, requests@.len(), id) == Some(ids@[id] as int),
        index_matches(index@, sessions_in_order(requests@, requests@.len())),
    ensures
        match result {
            Ok(known) => launches(requests@, tools@, tools@.len()) == Ok::<Map<Seq<char>, int>, LowerFailure>(
                known@.map_values(|t: usize| t as int),
            ) && forall|s: Seq<char>| #[trigger] known@.contains_key(s) ==> known@[s] < tools@.len(),
            Err(error) => launches(requests@, tools@, tools@.len()) == Err::<Map<Seq<char>, int>, LowerFailure>(
                error@,
            ),
        },
{
    let mut known: StringHashMap<usize> = StringHashMap::new();
    assert(known@.map_values(|t: usize| t as int) =~= Map::empty());
    let mut i: usize = 0;
    while i < tools.len()
        invariant
            i <= tools@.len(),
            have_contexts(requests@),
            forall|id: Seq<char>| #[trigger]
                ids@.contains_key(id) <==> find_request(requests@, requests@.len(), id) is Some,
            forall|id: Seq<char>| #[trigger]
                ids@.contains_key(id) ==> find_request(requests@, requests@.len(), id) == Some(ids@[id] as int),
            index_matches(index@, sessions_in_order(requests@, requests@.len())),
            launches(requests@, tools@, i as nat) == Ok::<Map<Seq<char>, int>, LowerFailure>(
                known@.map_values(|t: usize| t as int),
            ),
            forall|s: Seq<char>| #[trigger] known@.contains_key(s) ==> known@[s] < i,
        decreases tools@.len() - i,
    {
        let tool = &tools[i];
        let ghost past = known@;
        let mut failure: Option<LowerError> = None;
        if let Some(claude) = &tool.claude {
            let mode = claude.execution_mode.as_str();
            if !same_text(mode, "blocking") && !same_text(mode, "background") {
                failure = Some(
                    LowerError::UnsupportedMode {
                        tool_call_id: tool.tool_call_id.clone(),
                        mode: claude.execution_mode.clone(),
                    },
                );
            } else {
                failure = check_reference(requests, ids, tool, &claude.source_request_id, true);
                if failure.is_none() {
                    if let Some(consumer) = &claude.consumer_request_id {
                        failure = check_reference(requests, ids, tool, consumer, false);
                    }
                }
            }
            if failure.is_none() {
                if let Some(child) = &claude.child_session_id {
                    if index.contains_key(child.as_str()) {
                        if known.contains_key(child.as_str()) {
                            failure = Some(LowerError::DuplicateChild { session_id: child.clone() });
                        } else {
                            known.insert(child.clone(), i);
                            assert(known@.map_values(|t: usize| t as int) =~= past.map_values(
                                |t: usize| t as int,
                            ).insert(child@, i as int));
                        }
                    }
                }
            }
        }
        if let Some(error) = failure {
            proof {
                lemma_launches_keep_failing(requests@, tools@, i as nat + 1, tools@.len());
            }
            return Err(error);
        }
        i += 1;
    }
    Ok(known)
}

proof fn lemma_launches_keep_failing(requests: Seq<RequestEntry>, tools: Seq<ToolEntry>, n: nat, m: nat)
    requires
        n <= m,
        launches(requests, tools, n) is Err,
    ensures
        launches(requests, tools, m) == launches(requests, tools, n),
    decreases m,
{
    if n < m {
        lemma_launches_keep_failing(requests, tools, n, (m - 1) as nat);
    }
}

proof fn lemma_family_keeps_failing(
    requests: Seq<RequestEntry>,
    tools: Seq<ToolEntry>,
    known: Map<Seq<char>, int>,
    n: nat,
    m: nat,
)
    requires
        n <= m,
        family_edges(requests, tools, known, n) is Err,
    ensures
        family_edges(requests, tools, known, m) == family_edges(requests, tools, known, n),
    decreases m,
{
    if n < m {
        lemma_family_keeps_failing(requests, tools, known, n, (m - 1) as nat);
    }
}

/// The dependency lists that the edges give.
spec fn lists_match(dependencies: Seq<Vec<usize>>, edges: Seq<(int, int)>) -> bool {
    forall|i: int|
        0 <= i < dependencies.len() ==> as_ints((#[trigger] dependencies[i])@) == dependencies_of(edges, i)
}

spec fn edges_in_range(edges: Seq<(int, int)>, n: int) -> bool {
    forall|k: int| 0 <= k < edges.len() ==> 0 <= (#[trigger] edges[k]).0 < n && 0 <= edges[k].1 < n
}

fn add_edge(dependencies: &mut Vec<Vec<usize>>, target: usize, source: usize, Ghost(edges): Ghost<Seq<(int, int)>>)
    requires
        target < old(dependencies)@.len(),
        lists_match(old(dependencies)@, edges),
    ensures
        final(dependencies)@.len() == old(dependencies)@.len(),
        lists_match(final(dependencies)@, edges.push((target as int, source as int))),
{
    let ghost before = dependencies@;
    push_unique(&mut dependencies[target], source);
    proof {
        let more = edges.push((target as int, source as int));
        assert(more.drop_last() =~= edges);
        assert forall|i: int| 0 <= i < dependencies@.len() implies as_ints((#[trigger] dependencies@[i])@)
            == dependencies_of(more, i) by {
            assert(as_ints(before[i]@) == dependencies_of(edges, i));
            if i == target {
                let list = before[i]@;
                if list.contains(source) {
                    let k = list.index_of(source);
                    assert(as_ints(list)[k] == source as int);
                } else {
                    if as_ints(list).contains(source as int) {
                        let k = as_ints(list).index_of(source as int);
                        assert(list[k] == source);
                    }
                    assert(as_ints(list.push(source)) =~= as_ints(list).push(source as int));
                }
            } else {
                assert(dependencies@[i] == before[i]);
            }
        }
    }
}

fn last_to_finish(requests: &Vec<RequestEntry>, indices: &Vec<usize>) -> (result: usize)
    requires
        indices@.len() > 0,
        forall|k: int| 0 <= k < indices@.len() ==> (#[trigger] indices@[k]) < requests@.len(),
    ensures
        result == last_finishing(requests@, as_ints(indices@)),
        result < requests@.len(),
{
    let mut best = indices[0];
    let mut k: usize = 1;
    assert(as_ints(indices@).take(1) =~= seq![best as int]);
    while k < indices.len()
        invariant
            1 <= k <= indices@.len(),
            forall|j: int| 0 <= j < indices@.len() ==> (#[trigger] indices@[j]) < requests@.len(),
            best < requests@.len(),
            best == last_finishing(requests@, as_ints(indices@).take(k as int)),
        decreases indices@.len() - k,
    {
        let candidate = indices[k];
        let left = &requests[best];
        let right = &requests[candidate];
        proof {
            let ints = as_ints(indices@);
            assert(ints.take(k + 1).drop_last() =~= ints.take(k as int));
            assert(ints.take(k + 1).last() == candidate as int);
        }
        let later = if left.end_ms != right.end_ms {
            left.end_ms < right.end_ms
        } else if left.start_ms != right.start_ms {
            left.start_ms < right.start_ms
        } else {
            text_precedes(left.request.source_request_id.as_str(), right.request.source_request_id.as_str())
        };
        if later {
            best = candidate;
        }
        k += 1;
    }
    assert(as_ints(indices@).take(k as int) =~= as_ints(indices@));
    best
}

/// The latest of the given requests that starts at or before `timestamp_ms`.
fn latest_request_starting_before(
    requests: &Vec<RequestEntry>,
    indices: &Vec<usize>,
    timestamp_ms: i64,
) -> (result: Option<usize>)
    requires
        forall|k: int| 0 <= k < indices@.len() ==> (#[trigger] indices@[k]) < requests@.len(),
    ensures
        match result {
            Some(i) => i < requests@.len() && latest_start(requests@, as_ints(indices@), timestamp_ms as int)
                == Some(i as int),
            None => latest_start(requests@, as_ints(indices@), timestamp_ms as int) is None,
        },
{
    let mut best: Option<usize> = None;
    let mut k: usize = 0;
    assert(as_ints(indices@).take(0) =~= Seq::empty());
    while k < indices.len()
        invariant
            k <= indices@.len(),
            forall|j: int| 0 <= j < indices@.len() ==> (#[trigger] indices@[j]) < requests@.len(),
            match best {
                Some(i) => i < requests@.len() && latest_start(
                    requests@,
                    as_ints(indices@).take(k as int),
                    timestamp_ms as int,
                ) == Some(i as int),
                None => latest_start(requests@, as_ints(indices@).take(k as int), timestamp_ms as int) is None,
            },
        decreases indices@.len() - k,
    {
        let candidate = indices[k];
        proof {
            let ints = as_ints(indices@);
            assert(ints.take(k + 1).drop_last() =~= ints.take(k as int));
            assert(ints.take(k + 1).last() == candidate as int);
        }
        if requests[candidate].start_ms <= timestamp_ms {
            let better = match best {
                Some(current) => requests[candidate].start_ms >= requests[current].start_ms,
                None => true,
            };
            if better {
                best = Some(candidate);
            }
        }
        k += 1;
    }
    assert(as_ints(indices@).take(k as int) =~= as_ints(indices@));
    best
}

/// The earliest of the given requests that starts at or after `timestamp_ms`.
fn first_request_starting_after(
    requests: &Vec<RequestEntry>,
    indices: &Vec<usize>,
    timestamp_ms: i64,
) -> (result: Option<usize>)
    requires
        forall|k: int| 0 <= k < indices@.len() ==> (#[trigger] indices@[k]) < requests@.len(),
    ensures
        match result {
            Some(i) => i < requests@.len() && first_start(requests@, as_ints(indices@), timestamp_ms as int)
                == Some(i as int),
            None => first_start(requests@, as_ints(indices@), timestamp_ms as int) is None,
        },
{
    let mut best: Option<usize> = None;
    let mut k: usize = 0;
    assert(as_ints(indices@).take(0) =~= Seq::empty());
    while k < indices.len()
        invariant
            k <= indices@.len(),
            forall|j: int| 0 <= j < indices@.len() ==> (#[trigger] indices@[j]) < requests@.len(),
            match best {
                Some(i) => i < requests@.len() && first_start(
                    requests@,
                    as_ints(indices@).take(k as int),
                    timestamp_ms as int,
                ) == Some(i as int),
                None => first_start(requests@, as_ints(indices@).take(k as int), timestamp_ms as int) is None,
            },
        decreases indices@.len() - k,
    {
        let candidate = indices[k];
        proof {
            let ints = as_ints(indices@);
            assert(ints.take(k + 1).drop_last() =~= ints.take(k as int));
            assert(ints.take(k + 1).last() == candidate as int);
        }
        if requests[candidate].start_ms >= timestamp_ms {
            let better = match best {
                Some(current) => requests[candidate].start_ms < requests[current].start_ms,
                None => true,
            };
            if better {
                best = Some(candidate);
            }
        }
        k += 1;
    }
    assert(as_ints(indices@).take(k as int) =~= as_ints(indices@));
    best
}

fn link_chains(requests: &Vec<RequestEntry>, groups: &Vec<SessionGroup>, index: &StringHashMap<usize>) -> (result: Vec<
    Vec<usize>,
>)
    requires
        have_contexts(requests@),
        groups_match(groups@, requests@, requests@.len()),
        index_matches(index@, group_ids(groups@)),
    ensures
        result@.len() == requests@.len(),
        lists_match(result@, chain_edges(requests@, requests@.len())),
        edges_in_range(chain_edges(requests@, requests@.len()), requests@.len() as int),
{
    let n = requests.len();
    let mut dependencies: Vec<Vec<usize>> = Vec::with_capacity(n);
    while dependencies.len() < n
        invariant
            dependencies@.len() <= n,
            forall|i: int| 0 <= i < dependencies@.len() ==> (#[trigger] dependencies@[i])@.len() == 0,
        decreases n - dependencies@.len(),
    {
        dependencies.push(Vec::new());
    }
    let mut last: Vec<Option<usize>> = Vec::with_capacity(groups.len());
    while last.len() < groups.len()
        invariant
            last@.len() <= groups@.len(),
            forall|g: int| 0 <= g < last@.len() ==> (#[trigger] last@[g]) is None,
        decreases groups@.len() - last@.len(),
    {
        last.push(None);
    }
    proof {
        assert forall|i: int| 0 <= i < n implies as_ints((#[trigger] dependencies@[i])@) == dependencies_of(
            chain_edges(requests@, 0),
            i,
        ) by {
            assert(as_ints(dependencies@[i]@) =~= Seq::<int>::empty());
        }
    }
    let mut i: usize = 0;
    while i < n
        invariant
            i <= n,
            n == requests@.len(),
            n == dependencies@.len(),
            have_contexts(requests@),
            groups_match(groups@, requests@, requests@.len()),
            index_matches(index@, group_ids(groups@)),
            last@.len() == groups@.len(),
            forall|g: int|
                0 <= g < groups@.len() ==> match #[trigger] last@[g] {
                    Some(previous) => previous < i && session_requests(
                        requests@,
                        i as nat,
                        groups@[g].id@,
                    ).len() > 0 && session_requests(requests@, i as nat, groups@[g].id@).last() == previous,
                    None => session_requests(requests@, i as nat, groups@[g].id@).len() == 0,
                },
            lists_match(dependencies@, chain_edges(requests@, i as nat)),
            edges_in_range(chain_edges(requests@, i as nat), n as int),
        decreases n - i,
    {
        let context = match &requests[i].request.agent_context {
            Some(context) => context,
            None => {
                assert(false);
                return dependencies;
            },
        };
        let ghost session = context.session_id@;
        proof {
            lemma_session_listed(requests@, i as int, requests@.len());
        }
        let g: usize = match index.get(context.session_id.as_str()) {
            Some(found) => *found,
            None => {
                assert(false);
                return dependencies;
            },
        };
        assert(groups@[g as int].id@ == session);
        if let Some(previous) = last[g] {
            add_edge(&mut dependencies, i, previous, Ghost(chain_edges(requests@, i as nat)));
        }
        let ghost past = last@;
        last.set(g, Some(i));
        proof {
            assert forall|h: int| 0 <= h < groups@.len() implies match #[trigger] last@[h] {
                Some(previous) => previous < i + 1 && session_requests(
                    requests@,
                    i as nat + 1,
                    groups@[h].id@,
                ).len() > 0 && session_requests(requests@, i as nat + 1, groups@[h].id@).last() == previous,
                None => session_requests(requests@, i as nat + 1, groups@[h].id@).len() == 0,
            } by {
                if h != g {
                    lemma_ids_differ(requests@, requests@.len(), h, g as int);
                    assert(group_ids(groups@)[h] != group_ids(groups@)[g as int]);
                    assert(last@[h] == past[h]);
                }
            }
        }
        i += 1;
    }
    dependencies
}

proof fn lemma_session_listed(requests: Seq<RequestEntry>, i: int, n: nat)
    requires
        0 <= i < n <= requests.len(),
    ensures
        sessions_in_order(requests, n).contains(session_of(requests[i])),
    decreases n,
{
    let session = session_of(requests[i]);
    let before = sessions_in_order(requests, (n - 1) as nat);
    let after = sessions_in_order(requests, n);
    if i == n - 1 {
        if !before.contains(session) {
            assert(after[before.len() as int] == session);
        }
    } else {
        lemma_session_listed(requests, i, (n - 1) as nat);
        let k = before.index_of(session);
        assert(after[k] == session);
    }
}

fn link_families(
    requests: &Vec<RequestEntry>,
    tools: &Vec<ToolEntry>,
    ids: &StringHashMap<usize>,
    groups: &Vec<SessionGroup>,
    index: &StringHashMap<usize>,
    known: &StringHashMap<usize>,
    dependencies: &mut Vec<Vec<usize>>,
    Ghost(chains): Ghost<Seq<(int, int)>>,
) -> (result: Option<LowerError>)
    requires
        have_contexts(requests@),
        forall|id: Seq<char>| #[trigger]
            ids@.contains_key(id) <==> find_request(requests@, requests@.len(), id) is Some,
        forall|id: Seq<char>| #[trigger]
            ids@.contains_key(id) ==> find_request(requests@, requests@.len(), id) == Some(ids@[id] as int),
        groups_match(groups@, requests@, requests@.len()),
        index_matches(index@, group_ids(groups@)),
        launches(requests@, tools@, tools@.len()) == Ok::<Map<Seq<char>, int>, LowerFailure>(
            known@.map_values(|t: usize| t as int),
        ),
        forall|s: Seq<char>| #[trigger] known@.contains_key(s) ==> known@[s] < tools@.len(),
        old(dependencies)@.len() == requests@.len(),
        lists_match(old(dependencies)@, chains),
        edges_in_range(chains, requests@.len() as int),
    ensures
        ({
            let family = family_edges(
                requests@,
                tools@,
                known@.map_values(|t: usize| t as int),
                groups@.len(),
            );
            match result {
                Some(error) => family == Err::<Seq<(int, int)>, LowerFailure>(error@),
                None => {
                    &&& family is Ok
                    &&& final(dependencies)@.len() == requests@.len()
                    &&& lists_match(final(dependencies)@, chains + family->Ok_0)
                    &&& edges_in_range(chains + family->Ok_0, requests@.len() as int)
                },
            }
        }),
{
    let ghost links = known@.map_values(|t: usize| t as int);
    let ghost total = requests@.len();
    let mut g: usize = 0;
    assert(chains + Seq::<(int, int)>::empty() =~= chains);
    while g < groups.len()
        invariant
            g <= groups@.len(),
            total == requests@.len(),
            links == known@.map_values(|t: usize| t as int),
            have_contexts(requests@),
            forall|id: Seq<char>| #[trigger]
                ids@.contains_key(id) <==> find_request(requests@, total, id) is Some,
            forall|id: Seq<char>| #[trigger]
                ids@.contains_key(id) ==> find_request(requests@, total, id) == Some(ids@[id] as int),
            groups_match(groups@, requests@, total),
            index_matches(index@, group_ids(groups@)),
            launches(requests@, tools@, tools@.len()) == Ok::<Map<Seq<char>, int>, LowerFailure>(links),
            forall|s: Seq<char>| #[trigger] known@.contains_key(s) ==> known@[s] < tools@.len(),
            dependencies@.len() == total,
            family_edges(requests@, tools@, links, g as nat) is Ok,
            lists_match(dependencies@, chains + family_edges(requests@, tools@, links, g as nat)->Ok_0),
            edges_in_range(chains + family_edges(requests@, tools@, links, g as nat)->Ok_0, total as int),
        decreases groups@.len() - g,
    {
        let group = &groups[g];
        let ghost child = group.id@;
        let ghost done = family_edges(requests@, tools@, links, g as nat)->Ok_0;
        let ghost edges = chains + done;
        proof {
            assert(group_ids(groups@)[g as int] == child);
            assert(sessions_in_order(requests@, total)[g as int] == child);
            assert(done + Seq::<(int, int)>::empty() =~= done);
        }
        if let Some(parent) = &group.parent {
            if let Some(found) = index.get(parent.as_str()) {
                let others = &groups[*found].indices;
                proof {
                    assert(groups@[*found as int].id@ == parent@);
                    assert(sessions_in_order(requests@, total).contains(parent@));
                    lemma_session_requests(requests@, total, child);
                    lemma_session_requests(requests@, total, parent@);
                    assert(sessions_in_order(requests@, total).contains(child)) by {
                        assert(group_ids(groups@)[g as int] == child);
                    }
                    assert forall|k: int| 0 <= k < group.indices@.len() implies (#[trigger] group.indices@[k])
                        < total by {
                        assert(as_ints(group.indices@)[k] == group.indices@[k]);
                    }
                    assert forall|k: int| 0 <= k < others@.len() implies (#[trigger] others@[k]) < total by {
                        assert(as_ints(others@)[k] == others@[k]);
                    }
                }
                let first = group.indices[0];
                assert(as_ints(group.indices@)[0] == first);
                let last = last_to_finish(requests, &group.indices);
                let explicit: Option<usize> = match known.get(group.id.as_str()) {
                    Some(t) => Some(*t),
                    None => None,
                };
                match explicit {
                    Some(t) => {
                        let tool = &tools[t];
                        assert(links[child] == t);
                        proof {
                            lemma_known_has_evidence(requests@, tools@, tools@.len(), child);
                        }
                        let claude = match &tool.claude {
                            Some(claude) => claude,
                            None => {
                                assert(false);
                                return None;
                            },
                        };
                        let ghost more = explicit_edges(requests@, *tool, child, parent@);
                        proof {
                            lemma_find_request(requests@, total, claude.source_request_id@);
                        }
                        let spawn: usize = match ids.get(claude.source_request_id.as_str()) {
                            Some(spawn) => *spawn,
                            None => {
                                proof {
                                    lemma_family_keeps_failing(
                                        requests@,
                                        tools@,
                                        links,
                                        g as nat + 1,
                                        groups@.len(),
                                    );
                                }
                                return Some(
                                    LowerError::UnknownSource {
                                        tool_call_id: tool.tool_call_id.clone(),
                                        request_id: claude.source_request_id.clone(),
                                    },
                                );
                            },
                        };
                        if !in_session(requests, spawn, parent) {
                            proof {
                                lemma_family_keeps_failing(requests@, tools@, links, g as nat + 1, groups@.len());
                            }
                            return Some(
                                LowerError::ForeignSource {
                                    tool_call_id: tool.tool_call_id.clone(),
                                    request_id: claude.source_request_id.clone(),
                                    parent: parent.clone(),
                                },
                            );
                        }
                        add_edge(dependencies, first, spawn, Ghost(edges));
                        let ghost launch = seq![(first as int, spawn as int)];
                        assert(edges.push((first as int, spawn as int)) =~= chains + (done + launch));
                        if let Some(consumer) = &claude.consumer_request_id {
                            proof {
                                lemma_find_request(requests@, total, consumer@);
                            }
                            let join: Option<usize> = match ids.get(consumer.as_str()) {
                                Some(join) => Some(*join),
                                None => None,
                            };
                            if let Some(join) = join {
                                if !in_session(requests, join, parent) {
                                    proof {
                                        lemma_family_keeps_failing(
                                            requests@,
                                            tools@,
                                            links,
                                            g as nat + 1,
                                            groups@.len(),
                                        );
                                    }
                                    return Some(
                                        LowerError::ForeignConsumer {
                                            tool_call_id: tool.tool_call_id.clone(),
                                            request_id: consumer.clone(),
                                            parent: parent.clone(),
                                        },
                                    );
                                }
                                add_edge(
                                    dependencies,
                                    join,
                                    last,
                                    Ghost(edges.push((first as int, spawn as int))),
                                );
                                assert(edges.push((first as int, spawn as int)).push((join as int, last as int))
                                    =~= chains + (done + launch.push((join as int, last as int))));
                            }
                        }
                    },
                    None => {
                        let ghost launch = match latest_start(
                            requests@,
                            as_ints(others@),
                            requests@[first as int].start_ms as int,
                        ) {
                            Some(spawn) => seq![(first as int, spawn)],
                            None => Seq::<(int, int)>::empty(),
                        };
                        if let Some(spawn) = latest_request_starting_before(
                            requests,
                            others,
                            requests[first].start_ms,
                        ) {
                            add_edge(dependencies, first, spawn, Ghost(edges));
                            assert(edges.push((first as int, spawn as int)) =~= chains + (done + launch));
                        } else {
                            assert(edges =~= chains + (done + launch));
                        }
                        if let Some(join) = first_request_starting_after(requests, others, requests[last].end_ms) {
                            add_edge(dependencies, join, last, Ghost(chains + (done + launch)));
                            assert((chains + (done + launch)).push((join as int, last as int)) =~= chains + (done
                                + launch.push((join as int, last as int))));
                        }
                    },
                }
            }
        }
        g += 1;
    }
    None
}

fn in_session(requests: &Vec<RequestEntry>, i: usize, session: &String) -> (result: bool)
    requires
        i < requests@.len(),
        have_contexts(requests@),
    ensures
        result == (session_of(requests@[i as int]) == session@),
{
    assert(requests@[i as int].request.agent_context is Some);
    match &requests[i].request.agent_context {
        Some(context) => context.session_id == *session,
        None => false,
    }
}

proof fn lemma_known_has_evidence(requests: Seq<RequestEntry>, tools: Seq<ToolEntry>, n: nat, child: Seq<char>)
    requires
        n <= tools.len(),
        launches(requests, tools, n) is Ok,
        launches(requests, tools, n)->Ok_0.contains_key(child),
    ensures
        tools[launches(requests, tools, n)->Ok_0[child]].claude is Some,
    decreases n,
{
    if n > 0 {
        let before = launches(requests, tools, (n - 1) as nat)->Ok_0;
        if before.contains_key(child) {
            lemma_known_has_evidence(requests, tools, (n - 1) as nat, child);
        }
    }
}

proof fn lemma_dependencies_in_range(edges: Seq<(int, int)>, n: int, i: int)
    requires
        edges_in_range(edges, n),
    ensures
        forall|k: int|
            0 <= k < dependencies_of(edges, i).len() ==> 0 <= #[trigger] dependencies_of(edges, i)[k] < n,
    decreases edges.len(),
{
    if edges.len() > 0 {
        assert forall|k: int| 0 <= k < edges.drop_last().len() implies 0 <= (#[trigger] edges.drop_last()[k]).0 < n
            && 0 <= edges.drop_last()[k].1 < n by {
            assert(edges.drop_last()[k] == edges[k]);
        }
        lemma_dependencies_in_range(edges.drop_last(), n, i);
        let earlier = dependencies_of(edges.drop_last(), i);
        let now = dependencies_of(edges, i);
        assert(0 <= edges[edges.len() - 1].1 < n);
        assert forall|k: int| 0 <= k < now.len() implies 0 <= #[trigger] now[k] < n by {
            if k < earlier.len() {
                assert(now[k] == earlier[k]);
            }
        }
    }
}

/// The failure that an entry which is the index of no other request gives.
pub open spec fn stray_failure(
    requests: Seq<RequestEntry>,
    dependencies: Seq<Seq<usize>>,
    i: int,
    k: int,
) -> LowerFailure {
    let request_id = requests[i].request.source_request_id@;
    if dependencies[i][k] >= dependencies.len() {
        LowerFailure::UnknownDependency { request_id, index: dependencies[i][k] }
    } else {
        LowerFailure::SelfDependency { request_id }
    }
}

/// Refuses dependency lists that name an unknown request, or in which a request waits for itself,
/// directly or in a circle. The first entry that is no index of another request is the one
/// reported; a circle is reported only where there is none.
pub fn validate_dependency_dag(requests: &Vec<RequestEntry>, dependencies: &Vec<Vec<usize>>) -> (result: Result<
    (),
    LowerError,
>)
    requires
        dependencies@.len() == requests@.len(),
    ensures
        result is Ok <==> has_order(lists(dependencies@)),
        match result {
            Ok(()) => is_closed(lists(dependencies@)) && is_acyclic(lists(dependencies@)),
            Err(error) => if is_closed(lists(dependencies@)) {
                error@ == LowerFailure::Cycle && !is_acyclic(lists(dependencies@))
            } else {
                exists|i: int, k: int| #[trigger]
                    is_first_stray(lists(dependencies@), i, k) && error@ == stray_failure(
                        requests@,
                        lists(dependencies@),
                        i,
                        k,
                    )
            },
        },
{
    let ghost deps = lists(dependencies@);
    match first_stray(dependencies) {
        Some((i, k)) => {
            proof {
                lemma_stray_has_no_order(deps, i as int, k as int);
            }
            let index = dependencies[i][k];
            let request_id = requests[i].request.source_request_id.clone();
            assert(deps[i as int][k as int] == index);
            if index >= requests.len() {
                Err(LowerError::UnknownDependency { request_id, index })
            } else {
                Err(LowerError::SelfDependency { request_id })
            }
        },
        None => if can_be_ordered(dependencies) {
            Ok(())
        } else {
            Err(LowerError::Cycle)
        },
    }
}

/// Lists that hold the dependencies of edges between requests are refused where the edges are, and
/// for the same reason.
proof fn lemma_lists_follow_edges(dependencies: Seq<Vec<usize>>, edges: Seq<(int, int)>)
    requires
        lists_match(dependencies, edges),
        edges_in_range(edges, dependencies.len() as int),
    ensures
        is_closed(lists(dependencies)) <==> first_self_dependency(edges, dependencies.len()) is None,
        is_acyclic(lists(dependencies)) <==> edges_are_acyclic(edges, dependencies.len()),
        forall|i: int, k: int| #[trigger]
            is_first_stray(lists(dependencies), i, k) ==> {
                &&& first_self_dependency(edges, dependencies.len()) == Some(i)
                &&& lists(dependencies)[i][k] < dependencies.len()
            },
{
    let n = dependencies.len();
    let deps = lists(dependencies);
    assert forall|i: int, k: int| 0 <= i < n && 0 <= k < deps[i].len() implies {
        &&& (#[trigger] deps[i][k]) < n
        &&& k < dependencies_of(edges, i).len()
        &&& deps[i][k] == dependencies_of(edges, i)[k]
    } by {
        lemma_dependencies_in_range(edges, n as int, i);
        assert(as_ints(dependencies[i]@) == dependencies_of(edges, i));
        assert(as_ints(dependencies[i]@)[k] == deps[i][k]);
    }
    assert forall|i: int, k: int| 0 <= i < n && 0 <= k < dependencies_of(edges, i).len() implies {
        &&& k < deps[i].len()
        &&& deps[i][k] == #[trigger] dependencies_of(edges, i)[k]
    } by {
        assert(as_ints(dependencies[i]@) == dependencies_of(edges, i));
        assert(as_ints(dependencies[i]@)[k] == deps[i][k]);
    }
    assert forall|i: int, k: int| #[trigger] is_first_stray(deps, i, k) implies {
        &&& first_self_dependency(edges, n) == Some(i)
        &&& deps[i][k] < n
    } by {
        assert(deps[i][k] == dependencies_of(edges, i)[k]);
        assert(dependencies_of(edges, i).contains(i));
        assert forall|j: int| 0 <= j < i implies !(#[trigger] dependencies_of(edges, j)).contains(j) by {
            if dependencies_of(edges, j).contains(j) {
                let m = dependencies_of(edges, j).index_of(j);
                assert(deps[j][m] == j);
                assert(is_stray(deps, j, m));
            }
        }
        lemma_first_self(edges, i);
        lemma_first_self_keeps(edges, (i + 1) as nat, n);
    }
    if first_self_dependency(edges, n) is Some {
        let i = lemma_first_self_is_one(edges, n);
        let m = dependencies_of(edges, i).index_of(i);
        assert(deps[i][m] == i);
        assert(!is_closed(deps));
    } else if !is_closed(deps) {
        let (i, k) = choose|i: int, k: int|
            0 <= i < deps.len() && 0 <= k < deps[i].len() && !((#[trigger] deps[i][k]) < deps.len() && deps[i][k]
                != i);
        assert(dependencies_of(edges, i)[k] == i);
        assert(dependencies_of(edges, i).contains(i));
        lemma_self_is_found(edges, n, i);
    }
    if is_acyclic(deps) {
        let rank = choose|rank: spec_fn(int) -> nat| ranked_by(deps, rank);
        assert forall|i: int, k: int| 0 <= i < n && 0 <= k < dependencies_of(edges, i).len() implies rank(
            #[trigger] dependencies_of(edges, i)[k],
        ) < rank(i) by {
            assert(rank(deps[i][k] as int) < rank(i));
        }
        assert(edges_ranked_by(edges, n, rank));
    }
    if edges_are_acyclic(edges, n) {
        let rank = choose|rank: spec_fn(int) -> nat| edges_ranked_by(edges, n, rank);
        assert forall|i: int, k: int| 0 <= i < deps.len() && 0 <= k < deps[i].len() implies rank(
            #[trigger] deps[i][k] as int,
        ) < rank(i) by {
            assert(rank(dependencies_of(edges, i)[k]) < rank(i));
        }
        assert(ranked_by(deps, rank));
    }
}

proof fn lemma_first_self(edges: Seq<(int, int)>, i: int)
    requires
        0 <= i,
        dependencies_of(edges, i).contains(i),
        forall|j: int| 0 <= j < i ==> !(#[trigger] dependencies_of(edges, j)).contains(j),
    ensures
        first_self_dependency(edges, (i + 1) as nat) == Some(i),
{
    lemma_no_first_self(edges, i as nat);
}

proof fn lemma_no_first_self(edges: Seq<(int, int)>, n: nat)
    requires
        forall|j: int| 0 <= j < n ==> !(#[trigger] dependencies_of(edges, j)).contains(j),
    ensures
        first_self_dependency(edges, n) is None,
    decreases n,
{
    if n > 0 {
        lemma_no_first_self(edges, (n - 1) as nat);
    }
}

proof fn lemma_first_self_is_one(edges: Seq<(int, int)>, n: nat) -> (i: int)
    requires
        first_self_dependency(edges, n) is Some,
    ensures
        first_self_dependency(edges, n) == Some(i),
        0 <= i < n,
        dependencies_of(edges, i).contains(i),
    decreases n,
{
    if first_self_dependency(edges, (n - 1) as nat) is Some {
        lemma_first_self_is_one(edges, (n - 1) as nat)
    } else {
        n - 1
    }
}

proof fn lemma_self_is_found(edges: Seq<(int, int)>, n: nat, i: int)
    requires
        0 <= i < n,
        dependencies_of(edges, i).contains(i),
    ensures
        first_self_dependency(edges, n) is Some,
    decreases n,
{
    if i < n - 1 {
        lemma_self_is_found(edges, (n - 1) as nat, i);
    }
}

proof fn lemma_first_self_keeps(edges: Seq<(int, int)>, n: nat, m: nat)
    requires
        n <= m,
        first_self_dependency(edges, n) is Some,
    ensures
        first_self_dependency(edges, m) == first_self_dependency(edges, n),
    decreases m,
{
    if n < m {
        lemma_first_self_keeps(edges, n, (m - 1) as nat);
    }
}

fn end_of_latest(ends: &Vec<i64>, indices: &Vec<usize>, Ghost(requests): Ghost<Seq<RequestEntry>>) -> (result: i64)
    requires
        indices@.len() > 0,
        ends@.len() == requests.len(),
        forall|i: int| 0 <= i < ends@.len() ==> #[trigger] ends@[i] == requests[i].end_ms,
        forall|k: int| 0 <= k < indices@.len() ==> (#[trigger] indices@[k]) < ends@.len(),
    ensures
        result == latest_end(requests, as_ints(indices@)),
{
    let mut latest = ends[indices[0]];
    let mut k: usize = 1;
    assert(as_ints(indices@).take(1) =~= seq![indices@[0] as int]);
    while k < indices.len()
        invariant
            1 <= k <= indices@.len(),
            ends@.len() == requests.len(),
            forall|i: int| 0 <= i < ends@.len() ==> #[trigger] ends@[i] == requests[i].end_ms,
            forall|j: int| 0 <= j < indices@.len() ==> (#[trigger] indices@[j]) < ends@.len(),
            latest == latest_end(requests, as_ints(indices@).take(k as int)),
        decreases indices@.len() - k,
    {
        proof {
            let ints = as_ints(indices@);
            assert(ints.take(k + 1).drop_last() =~= ints.take(k as int));
            assert(ints.take(k + 1).last() == indices@[k as int] as int);
        }
        if ends[indices[k]] > latest {
            latest = ends[indices[k]];
        }
        k += 1;
    }
    assert(as_ints(indices@).take(k as int) =~= as_ints(indices@));
    latest
}

/// `trace` is the causal graph of a selection: its turns are the requests, and each waits for other
/// turns.
pub open spec fn is_lowered(trace: AgenticTrace, loaded: LoadedTrace) -> bool {
    let n = loaded.requests@.len();
    &&& causal_edges(loaded.requests@, loaded.tools@) is Ok
    &&& trace.manifest == loaded.manifest
    &&& trace.turns@.len() == n
    &&& forall|i: int|
        0 <= i < n ==> is_turn(
            #[trigger] trace.turns@[i],
            loaded.requests@,
            loaded.tools@,
            causal_edges(loaded.requests@, loaded.tools@)->Ok_0,
            i,
        )
    &&& forall|i: int, k: int|
        0 <= i < n && 0 <= k < trace.turns@[i].dependencies@.len() ==> (#[trigger] trace.turns@[i].dependencies@[k])
            < n
}

/// Lowers an ordered selection of requests to a causal graph.
pub fn lower(loaded: LoadedTrace) -> (result: Result<AgenticTrace, LowerError>)
    requires
        have_contexts(loaded.requests@),
    ensures
        match result {
            Ok(trace) => is_lowered(trace, loaded),
            Err(error) => causal_edges(loaded.requests@, loaded.tools@) == Err::<Seq<(int, int)>, LowerFailure>(
                error@,
            ),
        },
{
    let LoadedTrace { requests, tools, manifest } = loaded;
    let ghost all = requests@;
    let n = requests.len();
    if n == 0 {
        return Err(LowerError::NoRequests);
    }
    let ids = match index_requests(&requests) {
        Ok(ids) => ids,
        Err(error) => {
            return Err(error);
        },
    };
    let (groups, index) = match group_sessions(&requests) {
        Ok(grouped) => grouped,
        Err(error) => {
            return Err(error);
        },
    };
    let known = match index_launches(&requests, &tools, &ids, &index) {
        Ok(known) => known,
        Err(error) => {
            return Err(error);
        },
    };
    let ghost chains = chain_edges(all, all.len());
    let mut dependencies = link_chains(&requests, &groups, &index);
    assert(groups@.len() == group_ids(groups@).len());
    if let Some(error) = link_families(
        &requests,
        &tools,
        &ids,
        &groups,
        &index,
        &known,
        &mut dependencies,
        Ghost(chains),
    ) {
        return Err(error);
    }
    let ghost edges = chains + family_edges(
        all,
        tools@,
        known@.map_values(|t: usize| t as int),
        groups@.len(),
    )->Ok_0;
    proof {
        lemma_lists_follow_edges(dependencies@, edges);
    }
    if let Err(error) = validate_dependency_dag(&requests, &dependencies) {
        return Err(error);
    }
    let mut start_ms = requests[0].start_ms;
    let mut ends: Vec<i64> = Vec::with_capacity(n);
    ends.push(requests[0].end_ms);
    let mut i: usize = 1;
    while i < n
        invariant
            1 <= i <= n,
            n == requests@.len(),
            requests@ == all,
            start_ms == earliest_start(all, i as nat),
            ends@.len() == i,
            forall|k: int| 0 <= k < i ==> #[trigger] ends@[k] == all[k].end_ms,
        decreases n - i,
    {
        if requests[i].start_ms < start_ms {
            start_ms = requests[i].start_ms;
        }
        ends.push(requests[i].end_ms);
        i += 1;
    }
    let tools_by_session = group_tools(&tools);
    let mut turns: Vec<AgenticTurn> = Vec::with_capacity(n);
    let mut position: usize = 0;
    let ghost planned = dependencies@;
    for entry in it: requests
        invariant
            it.seq() == all,
            n == all.len(),
            have_contexts(all),
            forall|name: Seq<char>| #[trigger]
                tools_by_session.under(name) == places(tool_sessions(tools@), name, tools@.len()),
            position == it.index(),
            turns@.len() == it.index(),
            start_ms == earliest_start(all, all.len()),
            ends@.len() == n,
            forall|k: int| 0 <= k < n ==> #[trigger] ends@[k] == all[k].end_ms,
            planned.len() == n,
            lists_match(planned, edges),
            edges_in_range(edges, n as int),
            dependencies@.len() == n,
            forall|k: int| it.index() <= k < n ==> #[trigger] dependencies@[k] == planned[k],
            forall|k: int| 0 <= k < turns@.len() ==> is_turn(#[trigger] turns@[k], all, tools@, edges, k),
            forall|k: int, m: int|
                0 <= k < turns@.len() && 0 <= m < turns@[k].dependencies@.len() ==> (
                #[trigger] turns@[k].dependencies@[m]) < n,
    {
        let RequestEntry { request, start_ms: started, end_ms: _ } = entry;
        let mut list: Vec<usize> = Vec::new();
        std::mem::swap(&mut list, &mut dependencies[position]);
        proof {
            assert(all[it.index() as int] == entry);
            assert(list == planned[position as int]);
            assert(as_ints(planned[position as int]@) == dependencies_of(edges, position as int));
            lemma_dependencies_in_range(edges, n as int, position as int);
            assert forall|k: int| 0 <= k < list@.len() implies (#[trigger] list@[k]) < n by {
                assert(as_ints(list@)[k] == list@[k]);
            }
        }
        let turn = if list.len() > 0 {
            let latest = end_of_latest(&ends, &list, Ghost(all));
            let delay_ms = elapsed_ms(started, latest);
            let tool_ms = match &request.agent_context {
                Some(context) => measure_tools(
                    &tools,
                    &tools_by_session,
                    context.session_id.as_str(),
                    latest,
                    delay_ms,
                ),
                None => 0,
            };
            AgenticTurn {
                request,
                dependencies: list,
                root_arrival_ms: None,
                delay_after_dependencies_ms: delay_ms,
                tool_delay_ms: tool_ms,
                other_delay_ms: delay_ms - tool_ms,
            }
        } else {
            AgenticTurn {
                request,
                dependencies: list,
                root_arrival_ms: Some(elapsed_ms(started, start_ms)),
                delay_after_dependencies_ms: 0,
                tool_delay_ms: 0,
                other_delay_ms: 0,
            }
        };
        assert(is_turn(turn, all, tools@, edges, position as int));
        turns.push(turn);
        position += 1;
    }
    Ok(AgenticTrace { manifest, turns })
}

/// Why the lines of a trace make no causal graph.
#[derive(Debug)]
pub enum TraceError {
    Load(LoadError),
    Lower(LowerError),
}

impl TraceError {
    /// The message.
    pub open spec fn text(self) -> Seq<char> {
        match self {
            TraceError::Load(error) => error.text(),
            TraceError::Lower(error) => error@.text(),
        }
    }

    /// Puts the error in words.
    pub fn message(&self) -> (text: String)
        ensures
            text@ == self.text(),
    {
        match self {
            TraceError::Load(error) => error.message(),
            TraceError::Lower(error) => error.message(),
        }
    }
}

/// What a trace that sorts into `sorted` comes to: the causal graph of its selection, or why there is
/// no selection, or why the selection makes no graph.
pub open spec fn is_trace(
    result: Result<AgenticTrace, TraceError>,
    sorted: Seq<RequestEntry>,
    tools: Seq<ToolEntry>,
    source: Seq<u8>,
    max_requests: Option<usize>,
    session_id: Option<Seq<char>>,
) -> bool {
    match result {
        Ok(trace) => load_failure(sorted, max_requests, session_id) is None && exists|loaded: LoadedTrace| #[trigger]
            is_loaded(loaded, sorted, tools, source, max_requests, session_id) && is_lowered(trace, loaded),
        Err(TraceError::Load(error)) => load_failure(sorted, max_requests, session_id) == Some(error@),
        Err(TraceError::Lower(error)) => load_failure(sorted, max_requests, session_id) is None && exists|
            loaded: LoadedTrace,
        | #[trigger]
            is_loaded(loaded, sorted, tools, source, max_requests, session_id) && causal_edges(
                loaded.requests@,
                loaded.tools@,
            ) == Err::<Seq<(int, int)>, LowerFailure>(error@),
    }
}

/// Orders and selects the requests of a trace that has been read, and lowers them to their causal
/// graph.
pub fn load_agentic_trace(
    loader: TraceLoader,
    max_requests: Option<usize>,
    session_id: Option<&str>,
) -> (result: Result<AgenticTrace, TraceError>)
    requires
        loader.wf(),
    ensures
        exists|sorted: Seq<RequestEntry>|
            is_sorted(sorted) && #[trigger] sorted.to_multiset() == loader.requests().to_multiset() && is_trace(
                result,
                sorted,
                loader.tools(),
                loader.source(),
                max_requests,
                match session_id {
                    Some(id) => Some(id@),
                    None => None,
                },
            ),
{
    let ghost wanted = match session_id {
        Some(id) => Some(id@),
        None => None::<Seq<char>>,
    };
    let ghost (entries, tools, source) = (loader.requests(), loader.tools(), loader.source());
    let result = loader.finish(max_requests, session_id);
    let ghost sorted = choose|sorted: Seq<RequestEntry>|
        is_sorted(sorted) && #[trigger] sorted.to_multiset() == entries.to_multiset() && (match result {
            Ok(loaded) => load_failure(sorted, max_requests, wanted) is None && is_loaded(
                loaded,
                sorted,
                tools,
                source,
                max_requests,
                wanted,
            ),
            Err(error) => load_failure(sorted, max_requests, wanted) == Some(error@),
        });
    assert(sorted.to_multiset() == entries.to_multiset());
    let outcome = match result {
        Err(error) => Err(TraceError::Load(error)),
        Ok(loaded) => {
            proof {
                lemma_token_totals_contexts(loaded.requests@);
            }
            assert(is_loaded(loaded, sorted, tools, source, max_requests, wanted));
            match lower(loaded) {
                Ok(trace) => Ok(trace),
                Err(error) => Err(TraceError::Lower(error)),
            }
        },
    };
    assert(is_trace(outcome, sorted, tools, source, max_requests, wanted));
    outcome
}

// ---------------------------------------------------------------------------------------------
// Laws
// ---------------------------------------------------------------------------------------------

proof fn lemma_dependencies_prefix(edges: Seq<(int, int)>, more: Seq<(int, int)>, i: int)
    ensures
        dependencies_of(edges, i).is_prefix_of(dependencies_of(edges + more, i)),
    decreases more.len(),
{
    if more.len() == 0 {
        assert(edges + more =~= edges);
    } else {
        lemma_dependencies_prefix(edges, more.drop_last(), i);
        assert((edges + more).drop_last() =~= edges + more.drop_last());
    }
}

proof fn lemma_chain_dependency(requests: Seq<RequestEntry>, n: nat, i: int)
    requires
        0 <= i,
        n <= requests.len(),
    ensures
        dependencies_of(chain_edges(requests, n), i) == if i < n && session_requests(
            requests,
            i as nat,
            session_of(requests[i]),
        ).len() > 0 {
            seq![session_requests(requests, i as nat, session_of(requests[i])).last()]
        } else {
            Seq::<int>::empty()
        },
    decreases n,
{
    if n > 0 {
        let m = (n - 1) as nat;
        lemma_chain_dependency(requests, m, i);
        let earlier = session_requests(requests, m, session_of(requests[m as int]));
        if earlier.len() > 0 {
            assert(chain_edges(requests, n).drop_last() =~= chain_edges(requests, m));
            if i == m {
                assert(Seq::<int>::empty().push(earlier.last()) =~= seq![earlier.last()]);
            }
        }
    }
}

/// A session runs serially: each of its requests but the first waits, first of all, for the one
/// before it.
pub proof fn law_sessions_run_serially(requests: Seq<RequestEntry>, tools: Seq<ToolEntry>, i: int)
    requires
        causal_edges(requests, tools) is Ok,
        0 <= i < requests.len(),
        session_requests(requests, i as nat, session_of(requests[i])).len() > 0,
    ensures
        dependencies_of(causal_edges(requests, tools)->Ok_0, i).len() > 0,
        dependencies_of(causal_edges(requests, tools)->Ok_0, i)[0] == session_requests(
            requests,
            i as nat,
            session_of(requests[i]),
        ).last(),
{
    let n = requests.len();
    let known = launches(requests, tools, tools.len())->Ok_0;
    let family = family_edges(requests, tools, known, sessions_in_order(requests, n).len())->Ok_0;
    let chain = dependencies_of(chain_edges(requests, n), i);
    let whole = dependencies_of(chain_edges(requests, n) + family, i);
    lemma_chain_dependency(requests, n, i);
    lemma_dependencies_prefix(chain_edges(requests, n), family, i);
    assert(chain[0] == session_requests(requests, i as nat, session_of(requests[i])).last());
    assert(chain =~= whole.subrange(0, chain.len() as int));
    assert(whole[0] == chain[0]);
    assert(causal_edges(requests, tools)->Ok_0 == chain_edges(requests, n) + family);
}

/// The request that finishes last is one of those given, and each of them finishes at or before
/// it.
pub proof fn law_last_finishing_is_last(requests: Seq<RequestEntry>, indices: Seq<int>, k: int)
    requires
        0 <= k < indices.len(),
    ensures
        indices.contains(last_finishing(requests, indices)),
        finishes_by(requests[indices[k]], requests[last_finishing(requests, indices)]),
    decreases indices.len(),
{
    let id = |i: int| encode_utf8(requests[i].request.source_request_id@);
    if indices.len() == 1 {
        lemma_bytes_order_total(id(indices[0]), id(indices[0]));
    } else {
        let rest = indices.drop_last();
        let best = last_finishing(requests, rest);
        let last = indices.last();
        law_last_finishing_is_last(requests, rest, 0);
        let at = rest.index_of(best);
        assert(indices[at] == best);
        lemma_bytes_order_total(id(best), id(last));
        lemma_bytes_order_total(id(last), id(last));
        if k < rest.len() {
            law_last_finishing_is_last(requests, rest, k);
            assert(rest[k] == indices[k]);
            if finishes_by(requests[best], requests[last]) {
                lemma_finishes_transitive(requests[indices[k]], requests[best], requests[last]);
            }
        }
    }
}

proof fn lemma_finishes_transitive(a: RequestEntry, b: RequestEntry, c: RequestEntry)
    requires
        finishes_by(a, b),
        finishes_by(b, c),
    ensures
        finishes_by(a, c),
{
    if a.end_ms == b.end_ms && b.end_ms == c.end_ms && a.start_ms == b.start_ms && b.start_ms == c.start_ms {
        lemma_bytes_order_transitive(
            encode_utf8(a.request.source_request_id@),
            encode_utf8(b.request.source_request_id@),
            encode_utf8(c.request.source_request_id@),
        );
    }
}

/// The inferred launch is a request that had started when the child did, and no other one that
/// had started is later.
pub proof fn law_latest_start_is_latest(requests: Seq<RequestEntry>, indices: Seq<int>, timestamp_ms: int, k: int)
    requires
        0 <= k < indices.len(),
        requests[indices[k]].start_ms <= timestamp_ms,
    ensures
        latest_start(requests, indices, timestamp_ms) is Some,
        requests[latest_start(requests, indices, timestamp_ms)->0].start_ms <= timestamp_ms,
        requests[indices[k]].start_ms <= requests[latest_start(requests, indices, timestamp_ms)->0].start_ms,
    decreases indices.len(),
{
    let rest = indices.drop_last();
    if k < rest.len() {
        assert(rest[k] == indices[k]);
        law_latest_start_is_latest(requests, rest, timestamp_ms, k);
    } else if latest_start(requests, rest, timestamp_ms) is Some {
        lemma_latest_start_in_time(requests, rest, timestamp_ms);
    }
}

proof fn lemma_latest_start_in_time(requests: Seq<RequestEntry>, indices: Seq<int>, timestamp_ms: int)
    requires
        latest_start(requests, indices, timestamp_ms) is Some,
    ensures
        requests[latest_start(requests, indices, timestamp_ms)->0].start_ms <= timestamp_ms,
    decreases indices.len(),
{
    let rest = indices.drop_last();
    if indices.len() > 0 && latest_start(requests, rest, timestamp_ms) is Some {
        lemma_latest_start_in_time(requests, rest, timestamp_ms);
    }
}

/// The inferred join starts at or after the child's end, and no other request that does is
/// earlier.
pub proof fn law_first_start_is_first(requests: Seq<RequestEntry>, indices: Seq<int>, timestamp_ms: int, k: int)
    requires
        0 <= k < indices.len(),
        requests[indices[k]].start_ms >= timestamp_ms,
    ensures
        first_start(requests, indices, timestamp_ms) is Some,
        requests[first_start(requests, indices, timestamp_ms)->0].start_ms >= timestamp_ms,
        requests[indices[k]].start_ms >= requests[first_start(requests, indices, timestamp_ms)->0].start_ms,
    decreases indices.len(),
{
    let rest = indices.drop_last();
    if k < rest.len() {
        assert(rest[k] == indices[k]);
        law_first_start_is_first(requests, rest, timestamp_ms, k);
    } else if first_start(requests, rest, timestamp_ms) is Some {
        lemma_first_start_in_time(requests, rest, timestamp_ms);
    }
}

proof fn lemma_first_start_in_time(requests: Seq<RequestEntry>, indices: Seq<int>, timestamp_ms: int)
    requires
        first_start(requests, indices, timestamp_ms) is Some,
    ensures
        requests[first_start(requests, indices, timestamp_ms)->0].start_ms >= timestamp_ms,
    decreases indices.len(),
{
    let rest = indices.drop_last();
    if indices.len() > 0 && first_start(requests, rest, timestamp_ms) is Some {
        lemma_first_start_in_time(requests, rest, timestamp_ms);
    }
}

} // verus!
