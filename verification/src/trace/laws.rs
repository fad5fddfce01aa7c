//! What holds of every causal graph that a selection of requests is lowered to.

use crate::trace::agentic::{
    causal_edges, chain_edges, dependencies_of, earliest_start, edges_are_acyclic, edges_ranked_by, explicit_edges,
    family_edges, find_request, first_conflict, first_duplicate, first_self_dependency, first_start, has_session,
    inferred_edges, is_lowered, is_turn, last_finishing, latest_end, latest_start, launches,
    law_last_finishing_is_last, session_parent, session_requests, sessions_in_order, tool_failure, AgenticTrace,
    LowerFailure,
};
use crate::trace::load::LoadedTrace;
use crate::trace::record::{RequestEntry, ToolEntry};
use crate::trace::spans::{runs_tool, spans, tool_time};
use vstd::prelude::*;

verus! {

/// A request belongs to a session.
pub open spec fn belongs(entry: RequestEntry, session: Seq<char>) -> bool {
    entry.request.agent_context->0.session_id@ == session
}

/// A request names the parent of its session.
pub open spec fn names_parent(entry: RequestEntry, parent: Seq<char>) -> bool {
    match entry.request.agent_context->0.parent_session_id {
        Some(name) => name@ == parent,
        None => false,
    }
}

/// A tool call says that it launched a session.
pub open spec fn says_launched(tool: ToolEntry, session: Seq<char>) -> bool {
    match tool.claude {
        Some(claude) => match claude.child_session_id {
            Some(child) => child@ == session,
            None => false,
        },
        None => false,
    }
}

/// Request `f` is the first one of its session.
pub open spec fn is_first(requests: Seq<RequestEntry>, f: int) -> bool {
    forall|j: int|
        0 <= j < f ==> !belongs(#[trigger] requests[j], requests[f].request.agent_context->0.session_id@)
}

/// Request `last` of a session ends at or after each other one of that session.
pub open spec fn ends_last(requests: Seq<RequestEntry>, session: Seq<char>, last: int) -> bool {
    &&& 0 <= last < requests.len()
    &&& belongs(requests[last], session)
    &&& forall|j: int|
        0 <= j < requests.len() && belongs(#[trigger] requests[j], session) ==> {
            ||| requests[j].end_ms < requests[last].end_ms
            ||| requests[j].end_ms == requests[last].end_ms && requests[j].start_ms <= requests[last].start_ms
        }
}

/// The dependency listed at `k` ended at or after each other one of turn `i`.
pub open spec fn ends_last_of(trace: AgenticTrace, loaded: LoadedTrace, i: int, k: int) -> bool {
    let listed = trace.turns@[i].dependencies@;
    &&& 0 <= k < listed.len()
    &&& forall|m: int|
        0 <= m < listed.len() ==> loaded.requests@[(#[trigger] listed[m]) as int].end_ms
            <= loaded.requests@[listed[k] as int].end_ms
}

/// Turn `i` waits for turn `d`.
pub open spec fn waits_for(trace: AgenticTrace, i: int, d: int) -> bool {
    exists|k: int| 0 <= k < trace.turns@[i].dependencies@.len() && #[trigger] trace.turns@[i].dependencies@[k] == d
}

// ---------------------------------------------------------------------------------------------
// Timing
// ---------------------------------------------------------------------------------------------

proof fn lemma_latest_end(requests: Seq<RequestEntry>, indices: Seq<int>)
    requires
        indices.len() > 0,
    ensures
        exists|k: int|
            0 <= k < indices.len() && requests[#[trigger] indices[k]].end_ms == latest_end(requests, indices),
        forall|k: int|
            0 <= k < indices.len() ==> requests[#[trigger] indices[k]].end_ms <= latest_end(requests, indices),
    decreases indices.len(),
{
    if indices.len() == 1 {
        assert(requests[indices[0]].end_ms == latest_end(requests, indices));
    } else {
        let rest = indices.drop_last();
        lemma_latest_end(requests, rest);
        let at = choose|k: int|
            0 <= k < rest.len() && requests[#[trigger] rest[k]].end_ms == latest_end(requests, rest);
        assert(indices[at] == rest[at]);
        let n = indices.len() - 1;
        assert(indices[n] == indices.last());
        assert forall|k: int| 0 <= k < indices.len() implies requests[#[trigger] indices[k]].end_ms <= latest_end(
            requests,
            indices,
        ) by {
            if k < n {
                assert(indices[k] == rest[k]);
            }
        }
    }
}

proof fn lemma_last_end(trace: AgenticTrace, loaded: LoadedTrace, i: int, k: int)
    requires
        is_lowered(trace, loaded),
        0 <= i < trace.turns@.len(),
        ends_last_of(trace, loaded, i, k),
    ensures
        loaded.requests@[trace.turns@[i].dependencies@[k] as int].end_ms == latest_end(
            loaded.requests@,
            dependencies_of(causal_edges(loaded.requests@, loaded.tools@)->Ok_0, i),
        ),
        is_turn(
            trace.turns@[i],
            loaded.requests@,
            loaded.tools@,
            causal_edges(loaded.requests@, loaded.tools@)->Ok_0,
            i,
        ),
        dependencies_of(causal_edges(loaded.requests@, loaded.tools@)->Ok_0, i).len() > 0,
{
    let turn = trace.turns@[i];
    let requests = loaded.requests@;
    let edges = causal_edges(loaded.requests@, loaded.tools@)->Ok_0;
    assert(is_turn(turn, requests, loaded.tools@, edges, i));
    let listed = dependencies_of(edges, i);
    assert(listed.len() == turn.dependencies@.len());
    lemma_latest_end(requests, listed);
    let m = choose|m: int|
        0 <= m < listed.len() && requests[#[trigger] listed[m]].end_ms == latest_end(requests, listed);
    assert(listed[m] == turn.dependencies@[m]);
    assert(listed[k] == turn.dependencies@[k]);
}

/// A turn that waits for others follows the one among them that ended last: its delay is what was
/// recorded between that end and its own start, and nothing where it started before.
pub proof fn law_delays_follow_the_last_end(trace: AgenticTrace, loaded: LoadedTrace, i: int, k: int)
    requires
        is_lowered(trace, loaded),
        0 <= i < trace.turns@.len(),
        ends_last_of(trace, loaded, i, k),
    ensures
        ({
            let turn = trace.turns@[i];
            let start = loaded.requests@[i].start_ms as int;
            let end = loaded.requests@[turn.dependencies@[k] as int].end_ms as int;
            &&& turn.root_arrival_ms is None
            &&& start <= end ==> turn.delay_after_dependencies_ms == 0
            &&& end < start && start - end <= i64::MAX ==> end + turn.delay_after_dependencies_ms == start
            &&& start - end > i64::MAX ==> turn.delay_after_dependencies_ms == i64::MAX
        }),
{
    lemma_last_end(trace, loaded, i, k);
}

/// No turn starts before what it waits for has ended: its delay fits between the end of each of its
/// dependencies and its own start, or is nothing.
pub proof fn law_delays_fit_behind_each_dependency(trace: AgenticTrace, loaded: LoadedTrace, i: int, m: int)
    requires
        is_lowered(trace, loaded),
        0 <= i < trace.turns@.len(),
        0 <= m < trace.turns@[i].dependencies@.len(),
    ensures
        ({
            let turn = trace.turns@[i];
            let start = loaded.requests@[i].start_ms as int;
            let end = loaded.requests@[turn.dependencies@[m] as int].end_ms as int;
            turn.delay_after_dependencies_ms == 0 || end + turn.delay_after_dependencies_ms <= start
        }),
{
    let turn = trace.turns@[i];
    let requests = loaded.requests@;
    let edges = causal_edges(loaded.requests@, loaded.tools@)->Ok_0;
    assert(is_turn(turn, requests, loaded.tools@, edges, i));
    let listed = dependencies_of(edges, i);
    assert(listed[m] == turn.dependencies@[m]);
    lemma_latest_end(requests, listed);
}

proof fn lemma_earliest_start(requests: Seq<RequestEntry>, n: nat)
    requires
        0 < n <= requests.len(),
    ensures
        exists|k: int| 0 <= k < n && (#[trigger] requests[k]).start_ms == earliest_start(requests, n),
        forall|k: int| 0 <= k < n ==> earliest_start(requests, n) <= (#[trigger] requests[k]).start_ms,
    decreases n,
{
    if n == 1 {
        assert(requests[0].start_ms == earliest_start(requests, n));
    } else {
        lemma_earliest_start(requests, (n - 1) as nat);
        let at = choose|k: int|
            0 <= k < n - 1 && (#[trigger] requests[k]).start_ms == earliest_start(requests, (n - 1) as nat);
        assert(requests[at].start_ms == earliest_start(requests, (n - 1) as nat));
        assert(requests[n - 1].start_ms == requests[n - 1].start_ms);
    }
}

/// A turn that waits for none arrives as long after the first start as was recorded.
pub proof fn law_roots_arrive_as_recorded(trace: AgenticTrace, loaded: LoadedTrace, i: int, first: int)
    requires
        is_lowered(trace, loaded),
        0 <= i < trace.turns@.len(),
        trace.turns@[i].dependencies@.len() == 0,
        0 <= first < loaded.requests@.len(),
        forall|m: int|
            0 <= m < loaded.requests@.len() ==> loaded.requests@[first].start_ms <= (
            #[trigger] loaded.requests@[m]).start_ms,
    ensures
        trace.turns@[i].delay_after_dependencies_ms == 0,
        trace.turns@[i].tool_delay_ms == 0,
        trace.turns@[i].other_delay_ms == 0,
        ({
            let gap = loaded.requests@[i].start_ms - loaded.requests@[first].start_ms;
            trace.turns@[i].root_arrival_ms == Some(
                if gap <= i64::MAX {
                    gap as u64
                } else {
                    i64::MAX as u64
                },
            )
        }),
{
    let turn = trace.turns@[i];
    let requests = loaded.requests@;
    let edges = causal_edges(loaded.requests@, loaded.tools@)->Ok_0;
    assert(is_turn(turn, requests, loaded.tools@, edges, i));
    assert(dependencies_of(edges, i).len() == 0);
    lemma_earliest_start(requests, requests.len());
    let k = choose|k: int|
        0 <= k < requests.len() && (#[trigger] requests[k]).start_ms == earliest_start(requests, requests.len());
    assert(requests[first].start_ms <= requests[k].start_ms);
    assert(requests[k].start_ms <= requests[first].start_ms);
    assert(requests[k].start_ms <= requests[i].start_ms);
}

/// Two turns that arrive by themselves are as far apart as their recorded starts.
pub proof fn law_roots_keep_their_distance(trace: AgenticTrace, loaded: LoadedTrace, i: int, j: int)
    requires
        is_lowered(trace, loaded),
        0 <= i < trace.turns@.len(),
        0 <= j < trace.turns@.len(),
        trace.turns@[i].root_arrival_ms matches Some(at) && at < i64::MAX,
        trace.turns@[j].root_arrival_ms matches Some(at) && at < i64::MAX,
    ensures
        trace.turns@[j].root_arrival_ms->0 - trace.turns@[i].root_arrival_ms->0 == loaded.requests@[j].start_ms
            - loaded.requests@[i].start_ms,
{
    let requests = loaded.requests@;
    let edges = causal_edges(loaded.requests@, loaded.tools@)->Ok_0;
    assert(is_turn(trace.turns@[i], requests, loaded.tools@, edges, i));
    assert(is_turn(trace.turns@[j], requests, loaded.tools@, edges, j));
    lemma_earliest_start(requests, requests.len());
    assert(earliest_start(requests, requests.len()) <= requests[i].start_ms);
    assert(earliest_start(requests, requests.len()) <= requests[j].start_ms);
}

/// The turns are the requests, in their order, and the manifest is theirs.
pub proof fn law_turns_are_the_requests(trace: AgenticTrace, loaded: LoadedTrace, i: int)
    requires
        is_lowered(trace, loaded),
        0 <= i < loaded.requests@.len(),
    ensures
        trace.manifest == loaded.manifest,
        trace.turns@.len() == loaded.requests@.len(),
        trace.turns@[i].request == loaded.requests@[i].request,
        trace.turns@[i].tool_delay_ms + trace.turns@[i].other_delay_ms
            == trace.turns@[i].delay_after_dependencies_ms,
        trace.turns@[i].root_arrival_ms is Some <==> trace.turns@[i].dependencies@.len() == 0,
{
    let edges = causal_edges(loaded.requests@, loaded.tools@)->Ok_0;
    assert(is_turn(trace.turns@[i], loaded.requests@, loaded.tools@, edges, i));
    assert(dependencies_of(edges, i).len() == trace.turns@[i].dependencies@.len());
}

// ---------------------------------------------------------------------------------------------
// Order within a session
// ---------------------------------------------------------------------------------------------

proof fn lemma_members(requests: Seq<RequestEntry>, n: nat, session: Seq<char>)
    requires
        n <= requests.len(),
    ensures
        forall|i: int|
            0 <= i < n && belongs(#[trigger] requests[i], session) ==> session_requests(
                requests,
                n,
                session,
            ).contains(i),
        forall|k: int|
            0 <= k < session_requests(requests, n, session).len() ==> {
                &&& 0 <= #[trigger] session_requests(requests, n, session)[k] < n
                &&& belongs(requests[session_requests(requests, n, session)[k]], session)
            },
        forall|a: int, b: int|
            0 <= a < b < session_requests(requests, n, session).len() ==> #[trigger] session_requests(
                requests,
                n,
                session,
            )[a] < #[trigger] session_requests(requests, n, session)[b],
    decreases n,
{
    if n > 0 {
        let m = (n - 1) as nat;
        lemma_members(requests, m, session);
        let before = session_requests(requests, m, session);
        let now = session_requests(requests, n, session);
        assert forall|i: int| 0 <= i < n && belongs(#[trigger] requests[i], session) implies now.contains(i) by {
            if i < m {
                assert(before.contains(i));
                let k = before.index_of(i);
                assert(now[k] == i);
            } else {
                assert(now[now.len() - 1] == i);
            }
        }
        assert forall|k: int| 0 <= k < now.len() implies 0 <= #[trigger] now[k] < n && belongs(
            requests[now[k]],
            session,
        ) by {
            if k < before.len() {
                assert(now[k] == before[k]);
            }
        }
        assert forall|a: int, b: int| 0 <= a < b < now.len() implies #[trigger] now[a] < #[trigger] now[b] by {
            assert(now[a] == before[a]);
            if b < before.len() {
                assert(now[b] == before[b]);
            }
        }
    }
}

proof fn lemma_edge_gives_dependency(edges: Seq<(int, int)>, target: int, source: int)
    requires
        edges.contains((target, source)),
    ensures
        dependencies_of(edges, target).contains(source),
    decreases edges.len(),
{
    let rest = edges.drop_last();
    let at = edges.index_of((target, source));
    let earlier = dependencies_of(rest, target);
    if at < rest.len() {
        assert(rest[at] == (target, source));
        lemma_edge_gives_dependency(rest, target, source);
        let k = earlier.index_of(source);
        assert(dependencies_of(edges, target)[k] == source);
    } else if earlier.contains(source) {
        assert(dependencies_of(edges, target) == earlier);
    } else {
        assert(dependencies_of(edges, target)[earlier.len() as int] == source);
    }
}

proof fn lemma_dependency_has_edge(edges: Seq<(int, int)>, target: int, source: int)
    requires
        dependencies_of(edges, target).contains(source),
    ensures
        edges.contains((target, source)),
    decreases edges.len(),
{
    if edges.len() > 0 {
        let rest = edges.drop_last();
        let earlier = dependencies_of(rest, target);
        if earlier.contains(source) {
            lemma_dependency_has_edge(rest, target, source);
            let k = rest.index_of((target, source));
            assert(edges[k] == (target, source));
        } else {
            let k = dependencies_of(edges, target).index_of(source);
            if k < earlier.len() {
                assert(earlier[k] == source);
            }
            assert(edges[edges.len() - 1] == (target, source));
        }
    }
}

proof fn lemma_waits(trace: AgenticTrace, loaded: LoadedTrace, i: int, d: int)
    requires
        is_lowered(trace, loaded),
        0 <= i < loaded.requests@.len(),
    ensures
        waits_for(trace, i, d) <==> causal_edges(loaded.requests@, loaded.tools@)->Ok_0.contains((i, d)),
{
    let edges = causal_edges(loaded.requests@, loaded.tools@)->Ok_0;
    let turn = trace.turns@[i];
    assert(is_turn(turn, loaded.requests@, loaded.tools@, edges, i));
    let listed = dependencies_of(edges, i);
    if edges.contains((i, d)) {
        lemma_edge_gives_dependency(edges, i, d);
        let k = listed.index_of(d);
        assert(listed[k] == turn.dependencies@[k]);
    }
    if waits_for(trace, i, d) {
        let k = choose|k: int| 0 <= k < turn.dependencies@.len() && #[trigger] turn.dependencies@[k] == d;
        assert(listed[k] == d);
        lemma_dependency_has_edge(edges, i, d);
    }
}

proof fn lemma_chain(requests: Seq<RequestEntry>, n: nat, target: int, source: int)
    requires
        n <= requests.len(),
    ensures
        chain_edges(requests, n).contains((target, source)) <==> {
            &&& 0 <= source < target < n
            &&& belongs(requests[source], requests[target].request.agent_context->0.session_id@)
            &&& forall|j: int|
                source < j < target ==> !belongs(
                    #[trigger] requests[j],
                    requests[target].request.agent_context->0.session_id@,
                )
        },
    decreases n,
{
    if n > 0 {
        let m = (n - 1) as nat;
        lemma_chain(requests, m, target, source);
        let session = requests[m as int].request.agent_context->0.session_id@;
        let earlier = session_requests(requests, m, session);
        lemma_members(requests, m, session);
        let before = chain_edges(requests, m);
        let now = chain_edges(requests, n);
        if before.contains((target, source)) {
            let k = before.index_of((target, source));
            assert(now[k] == (target, source));
        }
        if now.contains((target, source)) {
            let k = now.index_of((target, source));
            if k < before.len() {
                assert(before[k] == (target, source));
            } else {
                assert((target, source) == (m as int, earlier.last()));
                assert forall|j: int| source < j < target implies !belongs(#[trigger] requests[j], session) by {
                    if belongs(requests[j], session) {
                        let at = earlier.index_of(j);
                        assert(earlier[at] <= earlier[earlier.len() - 1]);
                    }
                }
            }
        }
        if target == m && 0 <= source < target && belongs(requests[source], session) && forall|j: int|
            source < j < target ==> !belongs(#[trigger] requests[j], session) {
            assert(earlier.contains(source));
            let at = earlier.index_of(source);
            let last = earlier.last();
            assert(earlier[earlier.len() - 1] == last);
            assert(belongs(requests[last], session));
            assert(source <= last);
            assert(now[before.len() as int] == (target, source));
        }
    }
}

/// A session runs serially: a turn waits for the one before it in its session.
pub proof fn law_turns_of_a_session_follow_each_other(trace: AgenticTrace, loaded: LoadedTrace, i: int, d: int)
    requires
        is_lowered(trace, loaded),
        0 <= d < i < loaded.requests@.len(),
        belongs(loaded.requests@[d], loaded.requests@[i].request.agent_context->0.session_id@),
        forall|j: int|
            d < j < i ==> !belongs(
                #[trigger] loaded.requests@[j],
                loaded.requests@[i].request.agent_context->0.session_id@,
            ),
    ensures
        waits_for(trace, i, d),
{
    let requests = loaded.requests@;
    let n = requests.len();
    lemma_chain(requests, n, i, d);
    let known = launches(requests, loaded.tools@, loaded.tools@.len())->Ok_0;
    let family = family_edges(requests, loaded.tools@, known, sessions_in_order(requests, n).len())->Ok_0;
    let chain = chain_edges(requests, n);
    let k = chain.index_of((i, d));
    assert((chain + family)[k] == (i, d));
    lemma_waits(trace, loaded, i, d);
}

// ---------------------------------------------------------------------------------------------
// Families
// ---------------------------------------------------------------------------------------------

proof fn lemma_sessions(requests: Seq<RequestEntry>, n: nat, session: Seq<char>)
    requires
        n <= requests.len(),
    ensures
        sessions_in_order(requests, n).contains(session) <==> exists|i: int|
            0 <= i < n && belongs(#[trigger] requests[i], session),
    decreases n,
{
    if n > 0 {
        let m = (n - 1) as nat;
        lemma_sessions(requests, m, session);
        let own = requests[m as int].request.agent_context->0.session_id@;
        let before = sessions_in_order(requests, m);
        let now = sessions_in_order(requests, n);
        if before.contains(session) {
            let k = before.index_of(session);
            assert(now[k] == session);
        }
        if own == session {
            assert(belongs(requests[m as int], session));
            if !before.contains(session) {
                assert(now[before.len() as int] == session);
            }
        }
        if now.contains(session) {
            let k = now.index_of(session);
            if k < before.len() {
                assert(before[k] == session);
            } else {
                assert(belongs(requests[m as int], session));
            }
        }
    }
}

proof fn lemma_parent(requests: Seq<RequestEntry>, n: nat, session: Seq<char>)
    requires
        n <= requests.len(),
    ensures
        session_parent(requests, n, session) matches Some(parent) ==> exists|i: int|
            0 <= i < n && belongs(#[trigger] requests[i], session) && names_parent(requests[i], parent),
        session_parent(requests, n, session) is None ==> forall|i: int|
            0 <= i < n && belongs(#[trigger] requests[i], session) ==> requests[i].request.agent_context->0.parent_session_id is None,
    decreases n,
{
    if n > 0 {
        lemma_parent(requests, (n - 1) as nat, session);
    }
}

proof fn lemma_parents_agree(requests: Seq<RequestEntry>, n: nat, session: Seq<char>, i: int, parent: Seq<char>)
    requires
        first_conflict(requests, n) is None,
        0 <= i < n <= requests.len(),
        belongs(requests[i], session),
        names_parent(requests[i], parent),
    ensures
        session_parent(requests, n, session) == Some(parent),
    decreases n,
{
    let m = (n - 1) as nat;
    if i < m {
        lemma_parents_agree(requests, m, session, i, parent);
    }
}

/// The edges that session `g` adds.
spec fn own_edges(
    requests: Seq<RequestEntry>,
    tools: Seq<ToolEntry>,
    known: Map<Seq<char>, int>,
    g: int,
) -> Seq<(int, int)> {
    let child = sessions_in_order(requests, requests.len())[g];
    match session_parent(requests, requests.len(), child) {
        None => Seq::empty(),
        Some(parent) => if !has_session(requests, parent) {
            Seq::empty()
        } else if known.contains_key(child) {
            explicit_edges(requests, tools[known[child]], child, parent)->Ok_0
        } else {
            inferred_edges(requests, child, parent)
        },
    }
}

proof fn lemma_family(
    requests: Seq<RequestEntry>,
    tools: Seq<ToolEntry>,
    known: Map<Seq<char>, int>,
    n: nat,
    edge: (int, int),
)
    requires
        family_edges(requests, tools, known, n) is Ok,
        n <= sessions_in_order(requests, requests.len()).len(),
    ensures
        family_edges(requests, tools, known, n)->Ok_0.contains(edge) <==> exists|g: int|
            0 <= g < n && #[trigger] own_edges(requests, tools, known, g).contains(edge),
        forall|g: int|
            0 <= g < n ==> {
                let child = #[trigger] sessions_in_order(requests, requests.len())[g];
                match session_parent(requests, requests.len(), child) {
                    Some(parent) => has_session(requests, parent) && known.contains_key(child) ==> explicit_edges(
                        requests,
                        tools[known[child]],
                        child,
                        parent,
                    ) is Ok,
                    None => true,
                }
            },
    decreases n,
{
    if n > 0 {
        let m = (n - 1) as nat;
        lemma_family(requests, tools, known, m, edge);
        let before = family_edges(requests, tools, known, m)->Ok_0;
        let own = own_edges(requests, tools, known, m as int);
        let now = family_edges(requests, tools, known, n)->Ok_0;
        assert(now =~= before + own);
        if before.contains(edge) {
            let k = before.index_of(edge);
            assert(now[k] == edge);
        }
        if own.contains(edge) {
            let k = own.index_of(edge);
            assert(now[before.len() + k] == edge);
        }
        if now.contains(edge) {
            let k = now.index_of(edge);
            if k < before.len() {
                assert(before[k] == edge);
                let g = choose|g: int| 0 <= g < m && #[trigger] own_edges(requests, tools, known, g).contains(edge);
                assert(own_edges(requests, tools, known, g).contains(edge));
            } else {
                assert(own[k - before.len()] == edge);
            }
        }
    }
}

proof fn lemma_launches(requests: Seq<RequestEntry>, tools: Seq<ToolEntry>, n: nat, session: Seq<char>)
    requires
        launches(requests, tools, n) is Ok,
        n <= tools.len(),
        has_session(requests, session),
    ensures
        launches(requests, tools, n)->Ok_0.contains_key(session) ==> {
            let k = launches(requests, tools, n)->Ok_0[session];
            0 <= k < n && says_launched(tools[k], session)
        },
        forall|k: int|
            0 <= k < n && says_launched(#[trigger] tools[k], session) ==> launches(
                requests,
                tools,
                n,
            )->Ok_0.contains_key(session) && launches(requests, tools, n)->Ok_0[session] == k,
    decreases n,
{
    if n > 0 {
        lemma_launches(requests, tools, (n - 1) as nat, session);
    }
}

proof fn lemma_found(requests: Seq<RequestEntry>, n: nat, id: Seq<char>)
    requires
        n <= requests.len(),
    ensures
        find_request(requests, n, id) matches Some(i) ==> 0 <= i < n && requests[i].request.source_request_id@ == id,
        find_request(requests, n, id) is None ==> forall|i: int|
            0 <= i < n ==> (#[trigger] requests[i]).request.source_request_id@ != id,
    decreases n,
{
    if n > 0 {
        lemma_found(requests, (n - 1) as nat, id);
    }
}

proof fn lemma_unique(requests: Seq<RequestEntry>, n: nat, i: int, j: int)
    requires
        first_duplicate(requests, n) is None,
        0 <= i < j < n <= requests.len(),
    ensures
        requests[i].request.source_request_id@ != requests[j].request.source_request_id@,
    decreases n,
{
    if j < n - 1 {
        lemma_unique(requests, (n - 1) as nat, i, j);
    } else {
        lemma_found(requests, j as nat, requests[j].request.source_request_id@);
    }
}

/// No two turns have the same identifier.
pub proof fn law_identifiers_are_unique(trace: AgenticTrace, loaded: LoadedTrace, i: int, j: int)
    requires
        is_lowered(trace, loaded),
        0 <= i < j < loaded.requests@.len(),
    ensures
        loaded.requests@[i].request.source_request_id@ != loaded.requests@[j].request.source_request_id@,
{
    lemma_unique(loaded.requests@, loaded.requests@.len(), i, j);
}

/// The requests of a session name no two parents.
pub proof fn law_sessions_have_one_parent(trace: AgenticTrace, loaded: LoadedTrace, i: int, j: int, parent: Seq<char>)
    requires
        is_lowered(trace, loaded),
        0 <= i < loaded.requests@.len(),
        0 <= j < loaded.requests@.len(),
        belongs(loaded.requests@[j], loaded.requests@[i].request.agent_context->0.session_id@),
        names_parent(loaded.requests@[i], parent),
        loaded.requests@[j].request.agent_context->0.parent_session_id is Some,
    ensures
        names_parent(loaded.requests@[j], parent),
{
    let requests = loaded.requests@;
    let session = requests[i].request.agent_context->0.session_id@;
    lemma_parents_agree(requests, requests.len(), session, i, parent);
    let other = requests[j].request.agent_context->0.parent_session_id->0@;
    lemma_parents_agree(requests, requests.len(), session, j, other);
}

proof fn lemma_last_member(requests: Seq<RequestEntry>, session: Seq<char>)
    requires
        exists|i: int| 0 <= i < requests.len() && belongs(#[trigger] requests[i], session),
    ensures
        session_requests(requests, requests.len(), session).len() > 0,
        ends_last(requests, session, last_finishing(requests, session_requests(requests, requests.len(), session))),
{
    let members = session_requests(requests, requests.len(), session);
    lemma_members(requests, requests.len(), session);
    let i = choose|i: int| 0 <= i < requests.len() && belongs(#[trigger] requests[i], session);
    assert(members.contains(i));
    let last = last_finishing(requests, members);
    law_last_finishing_is_last(requests, members, 0);
    let at = members.index_of(last);
    assert(members[at] == last);
    assert forall|j: int| 0 <= j < requests.len() && belongs(#[trigger] requests[j], session) implies {
        ||| requests[j].end_ms < requests[last].end_ms
        ||| requests[j].end_ms == requests[last].end_ms && requests[j].start_ms <= requests[last].start_ms
    } by {
        assert(members.contains(j));
        let k = members.index_of(j);
        law_last_finishing_is_last(requests, members, k);
    }
}

proof fn lemma_first_member(requests: Seq<RequestEntry>, f: int)
    requires
        0 <= f < requests.len(),
        is_first(requests, f),
    ensures
        ({
            let session = requests[f].request.agent_context->0.session_id@;
            let members = session_requests(requests, requests.len(), session);
            members.len() > 0 && members[0] == f
        }),
{
    let session = requests[f].request.agent_context->0.session_id@;
    let members = session_requests(requests, requests.len(), session);
    lemma_members(requests, requests.len(), session);
    assert(belongs(requests[f], session));
    assert(members.contains(f));
    let at = members.index_of(f);
    assert(members[0] <= members[at]);
    assert(belongs(requests[members[0]], session));
}

proof fn lemma_latest_start(requests: Seq<RequestEntry>, indices: Seq<int>, ms: int)
    ensures
        latest_start(requests, indices, ms) matches Some(s) ==> indices.contains(s) && requests[s].start_ms <= ms
            && forall|k: int|
            0 <= k < indices.len() && requests[#[trigger] indices[k]].start_ms <= ms ==> requests[indices[k]].start_ms
                <= requests[s].start_ms,
        latest_start(requests, indices, ms) is None ==> forall|k: int|
            0 <= k < indices.len() ==> requests[#[trigger] indices[k]].start_ms > ms,
    decreases indices.len(),
{
    if indices.len() > 0 {
        let rest = indices.drop_last();
        lemma_latest_start(requests, rest, ms);
        if let Some(s) = latest_start(requests, rest, ms) {
            let at = rest.index_of(s);
            assert(indices[at] == s);
        }
        assert(indices[indices.len() - 1] == indices.last());
        assert forall|k: int| 0 <= k < rest.len() implies rest[k] == #[trigger] indices[k] by {}
    }
}

proof fn lemma_first_start(requests: Seq<RequestEntry>, indices: Seq<int>, ms: int)
    ensures
        first_start(requests, indices, ms) matches Some(s) ==> indices.contains(s) && requests[s].start_ms >= ms
            && forall|k: int|
            0 <= k < indices.len() && requests[#[trigger] indices[k]].start_ms >= ms ==> requests[indices[k]].start_ms
                >= requests[s].start_ms,
        first_start(requests, indices, ms) is None ==> forall|k: int|
            0 <= k < indices.len() ==> requests[#[trigger] indices[k]].start_ms < ms,
    decreases indices.len(),
{
    if indices.len() > 0 {
        let rest = indices.drop_last();
        lemma_first_start(requests, rest, ms);
        if let Some(s) = first_start(requests, rest, ms) {
            let at = rest.index_of(s);
            assert(indices[at] == s);
        }
        assert(indices[indices.len() - 1] == indices.last());
        assert forall|k: int| 0 <= k < rest.len() implies rest[k] == #[trigger] indices[k] by {}
    }
}

proof fn lemma_own_edge(trace: AgenticTrace, loaded: LoadedTrace, session: Seq<char>, target: int, source: int)
    requires
        is_lowered(trace, loaded),
        0 <= target < loaded.requests@.len(),
        has_session(loaded.requests@, session),
        ({
            let requests = loaded.requests@;
            let known = launches(requests, loaded.tools@, loaded.tools@.len())->Ok_0;
            let g = sessions_in_order(requests, requests.len()).index_of(session);
            own_edges(requests, loaded.tools@, known, g).contains((target, source))
        }),
    ensures
        waits_for(trace, target, source),
{
    let requests = loaded.requests@;
    let n = requests.len();
    let known = launches(requests, loaded.tools@, loaded.tools@.len())->Ok_0;
    let sessions = sessions_in_order(requests, n);
    let g = sessions.index_of(session);
    assert(sessions[g] == session);
    let family = family_edges(requests, loaded.tools@, known, sessions.len())->Ok_0;
    lemma_family(requests, loaded.tools@, known, sessions.len(), (target, source));
    assert(own_edges(requests, loaded.tools@, known, g).contains((target, source)));
    let chain = chain_edges(requests, n);
    let k = family.index_of((target, source));
    assert((chain + family)[chain.len() + k] == (target, source));
    lemma_waits(trace, loaded, target, source);
}

/// Where no tool call says what launched a session, the first turn of that session waits for the
/// latest turn of its parent that had started by then.
pub proof fn law_launches_are_inferred(trace: AgenticTrace, loaded: LoadedTrace, f: int, parent: Seq<char>, s: int)
    requires
        is_lowered(trace, loaded),
        0 <= f < loaded.requests@.len(),
        0 <= s < loaded.requests@.len(),
        is_first(loaded.requests@, f),
        exists|i: int|
            0 <= i < loaded.requests@.len() && belongs(
                #[trigger] loaded.requests@[i],
                loaded.requests@[f].request.agent_context->0.session_id@,
            ) && names_parent(loaded.requests@[i], parent),
        belongs(loaded.requests@[s], parent),
        loaded.requests@[s].start_ms <= loaded.requests@[f].start_ms,
        forall|k: int|
            0 <= k < loaded.tools@.len() ==> !says_launched(
                #[trigger] loaded.tools@[k],
                loaded.requests@[f].request.agent_context->0.session_id@,
            ),
    ensures
        exists|d: int|
            {
                &&& #[trigger] waits_for(trace, f, d)
                &&& 0 <= d < loaded.requests@.len()
                &&& belongs(loaded.requests@[d], parent)
                &&& loaded.requests@[s].start_ms <= loaded.requests@[d].start_ms <= loaded.requests@[f].start_ms
            },
{
    let requests = loaded.requests@;
    let n = requests.len();
    let session = requests[f].request.agent_context->0.session_id@;
    let i = choose|i: int|
        0 <= i < n && belongs(#[trigger] requests[i], session) && names_parent(requests[i], parent);
    lemma_parents_agree(requests, n, session, i, parent);
    lemma_sessions(requests, n, session);
    lemma_sessions(requests, n, parent);
    assert(belongs(requests[f], session));
    let known = launches(requests, loaded.tools@, loaded.tools@.len())->Ok_0;
    lemma_launches(requests, loaded.tools@, loaded.tools@.len(), session);
    let sessions = sessions_in_order(requests, n);
    let g = sessions.index_of(session);
    assert(sessions[g] == session);
    lemma_first_member(requests, f);
    let others = session_requests(requests, n, parent);
    lemma_members(requests, n, parent);
    lemma_latest_start(requests, others, requests[f].start_ms as int);
    assert(others.contains(s));
    let at = others.index_of(s);
    assert(others[at] == s);
    let d = latest_start(requests, others, requests[f].start_ms as int)->0;
    let there = others.index_of(d);
    assert(others[there] == d);
    let own = own_edges(requests, loaded.tools@, known, g);
    assert(own == inferred_edges(requests, session, parent));
    assert(own[0] == (f, d));
    lemma_own_edge(trace, loaded, session, f, d);
}

/// Where no tool call says what launched a session, the first turn of its parent that starts when
/// the session is over waits for the turn of the session that ends last.
pub proof fn law_joins_are_inferred(trace: AgenticTrace, loaded: LoadedTrace, i: int, parent: Seq<char>, last: int, s: int)
    requires
        is_lowered(trace, loaded),
        0 <= i < loaded.requests@.len(),
        0 <= s < loaded.requests@.len(),
        names_parent(loaded.requests@[i], parent),
        ends_last(loaded.requests@, loaded.requests@[i].request.agent_context->0.session_id@, last),
        belongs(loaded.requests@[s], parent),
        loaded.requests@[s].start_ms >= loaded.requests@[last].end_ms,
        forall|k: int|
            0 <= k < loaded.tools@.len() ==> !says_launched(
                #[trigger] loaded.tools@[k],
                loaded.requests@[i].request.agent_context->0.session_id@,
            ),
    ensures
        exists|j: int, d: int|
            {
                &&& #[trigger] waits_for(trace, j, d)
                &&& 0 <= j < loaded.requests@.len()
                &&& belongs(loaded.requests@[j], parent)
                &&& loaded.requests@[last].end_ms <= loaded.requests@[j].start_ms <= loaded.requests@[s].start_ms
                &&& ends_last(loaded.requests@, loaded.requests@[i].request.agent_context->0.session_id@, d)
            },
{
    let requests = loaded.requests@;
    let n = requests.len();
    let session = requests[i].request.agent_context->0.session_id@;
    lemma_parents_agree(requests, n, session, i, parent);
    lemma_sessions(requests, n, session);
    lemma_sessions(requests, n, parent);
    assert(belongs(requests[i], session));
    let known = launches(requests, loaded.tools@, loaded.tools@.len())->Ok_0;
    lemma_launches(requests, loaded.tools@, loaded.tools@.len(), session);
    let sessions = sessions_in_order(requests, n);
    let g = sessions.index_of(session);
    assert(sessions[g] == session);
    lemma_last_member(requests, session);
    let members = session_requests(requests, n, session);
    let d = last_finishing(requests, members);
    assert(requests[d].end_ms == requests[last].end_ms) by {
        assert(belongs(requests[d], session));
        assert(belongs(requests[last], session));
    }
    let others = session_requests(requests, n, parent);
    lemma_members(requests, n, parent);
    lemma_first_start(requests, others, requests[d].end_ms as int);
    assert(others.contains(s));
    let at = others.index_of(s);
    assert(others[at] == s);
    let j = first_start(requests, others, requests[d].end_ms as int)->0;
    let there = others.index_of(j);
    assert(others[there] == j);
    let own = own_edges(requests, loaded.tools@, known, g);
    assert(own == inferred_edges(requests, session, parent));
    assert(own[own.len() - 1] == (j, d));
    assert(own.contains((j, d)));
    lemma_own_edge(trace, loaded, session, j, d);
}

/// Where a tool call says that it launched a session, the first turn of that session waits for the
/// request that made the call, and the request that used its outcome waits for the turn of the
/// session that ends last.
pub proof fn law_launches_follow_tool_calls(trace: AgenticTrace, loaded: LoadedTrace, f: int, k: int)
    requires
        is_lowered(trace, loaded),
        0 <= f < loaded.requests@.len(),
        0 <= k < loaded.tools@.len(),
        is_first(loaded.requests@, f),
        says_launched(loaded.tools@[k], loaded.requests@[f].request.agent_context->0.session_id@),
        exists|i: int, s: int|
            0 <= i < loaded.requests@.len() && 0 <= s < loaded.requests@.len() && belongs(
                #[trigger] loaded.requests@[i],
                loaded.requests@[f].request.agent_context->0.session_id@,
            ) && loaded.requests@[i].request.agent_context->0.parent_session_id is Some && belongs(
                #[trigger] loaded.requests@[s],
                loaded.requests@[i].request.agent_context->0.parent_session_id->0@,
            ),
    ensures
        exists|d: int|
            {
                &&& #[trigger] waits_for(trace, f, d)
                &&& 0 <= d < loaded.requests@.len()
                &&& loaded.requests@[d].request.source_request_id@ == loaded.tools@[k].claude->0.source_request_id@
            },
        forall|j: int|
            {
                &&& 0 <= j < loaded.requests@.len()
                &&& loaded.tools@[k].claude->0.consumer_request_id is Some
                &&& (#[trigger] loaded.requests@[j]).request.source_request_id@
                    == loaded.tools@[k].claude->0.consumer_request_id->0@
            } ==> exists|d: int| #[trigger]
                waits_for(trace, j, d) && ends_last(
                    loaded.requests@,
                    loaded.requests@[f].request.agent_context->0.session_id@,
                    d,
                ),
{
    let requests = loaded.requests@;
    let tools = loaded.tools@;
    let n = requests.len();
    let session = requests[f].request.agent_context->0.session_id@;
    let (i, s) = choose|i: int, s: int|
        0 <= i < n && 0 <= s < n && belongs(#[trigger] requests[i], session)
            && requests[i].request.agent_context->0.parent_session_id is Some && belongs(
            #[trigger] requests[s],
            requests[i].request.agent_context->0.parent_session_id->0@,
        );
    let parent = requests[i].request.agent_context->0.parent_session_id->0@;
    lemma_parents_agree(requests, n, session, i, parent);
    lemma_sessions(requests, n, session);
    lemma_sessions(requests, n, parent);
    assert(belongs(requests[f], session));
    let known = launches(requests, tools, tools.len())->Ok_0;
    lemma_launches(requests, tools, tools.len(), session);
    assert(known[session] == k);
    let sessions = sessions_in_order(requests, n);
    let g = sessions.index_of(session);
    assert(sessions[g] == session);
    lemma_family(requests, tools, known, sessions.len(), (0, 0));
    assert(explicit_edges(requests, tools[k], session, parent) is Ok);
    let own = own_edges(requests, tools, known, g);
    lemma_first_member(requests, f);
    let claude = tools[k].claude->0;
    lemma_found(requests, n, claude.source_request_id@);
    let spawn = find_request(requests, n, claude.source_request_id@)->0;
    assert(own[0] == (f, spawn));
    lemma_own_edge(trace, loaded, session, f, spawn);
    lemma_last_member(requests, session);
    let last = last_finishing(requests, session_requests(requests, n, session));
    assert forall|j: int|
        {
            &&& 0 <= j < requests.len()
            &&& claude.consumer_request_id is Some
            &&& (#[trigger] requests[j]).request.source_request_id@ == claude.consumer_request_id->0@
        } implies exists|d: int| #[trigger] waits_for(trace, j, d) && ends_last(requests, session, d) by {
        let consumer = claude.consumer_request_id->0@;
        lemma_found(requests, n, consumer);
        let join = find_request(requests, n, consumer)->0;
        if join < j {
            lemma_unique(requests, n, join, j);
        }
        if j < join {
            lemma_unique(requests, n, j, join);
        }
        assert(own[1] == (join, last));
        lemma_own_edge(trace, loaded, session, join, last);
    }
}

/// A turn waits for nothing else than the turn before it in its session, a turn of the parent of its
/// session, where it is the first one of that, or the turn that ends last of a session whose parent
/// is its own.
pub proof fn law_turns_wait_for_nothing_else(trace: AgenticTrace, loaded: LoadedTrace, i: int, d: int)
    requires
        is_lowered(trace, loaded),
        0 <= i < loaded.requests@.len(),
        waits_for(trace, i, d),
    ensures
        0 <= d < loaded.requests@.len(),
        ({
            let requests = loaded.requests@;
            let session = requests[i].request.agent_context->0.session_id@;
            let other = requests[d].request.agent_context->0.session_id@;
            ||| {
                &&& d < i
                &&& session == other
                &&& forall|j: int| d < j < i ==> !belongs(#[trigger] requests[j], session)
            }
            ||| {
                &&& is_first(requests, i)
                &&& exists|j: int|
                    0 <= j < requests.len() && belongs(#[trigger] requests[j], session) && names_parent(
                        requests[j],
                        other,
                    )
            }
            ||| {
                &&& ends_last(requests, other, d)
                &&& exists|j: int|
                    0 <= j < requests.len() && belongs(#[trigger] requests[j], other) && names_parent(
                        requests[j],
                        session,
                    )
            }
        }),
{
    let requests = loaded.requests@;
    let tools = loaded.tools@;
    let n = requests.len();
    lemma_waits(trace, loaded, i, d);
    let known = launches(requests, tools, tools.len())->Ok_0;
    let sessions = sessions_in_order(requests, n);
    let family = family_edges(requests, tools, known, sessions.len())->Ok_0;
    let chain = chain_edges(requests, n);
    let whole = chain + family;
    let k = whole.index_of((i, d));
    lemma_chain(requests, n, i, d);
    if k < chain.len() {
        assert(chain[k] == (i, d));
    } else {
        assert(family[k - chain.len()] == (i, d));
        lemma_family(requests, tools, known, sessions.len(), (i, d));
        let g = choose|g: int| 0 <= g < sessions.len() && #[trigger] own_edges(requests, tools, known, g).contains((i, d));
        let child = sessions[g];
        let own = own_edges(requests, tools, known, g);
        assert(sessions.contains(child));
        lemma_sessions(requests, n, child);
        lemma_parent(requests, n, child);
        let parent = session_parent(requests, n, child)->0;
        lemma_sessions(requests, n, parent);
        lemma_members(requests, n, child);
        lemma_members(requests, n, parent);
        lemma_last_member(requests, child);
        let members = session_requests(requests, n, child);
        let others = session_requests(requests, n, parent);
        let first = members[0];
        let last = last_finishing(requests, members);
        assert(belongs(requests[first], child));
        assert(is_first(requests, first)) by {
            assert forall|j: int| 0 <= j < first implies !belongs(#[trigger] requests[j], child) by {
                if belongs(requests[j], child) {
                    assert(members.contains(j));
                    let at = members.index_of(j);
                    assert(members[0] <= members[at]);
                }
            }
        }
        let at = own.index_of((i, d));
        if known.contains_key(child) {
            let claude = tools[known[child]].claude->0;
            lemma_found(requests, n, claude.source_request_id@);
            if claude.consumer_request_id is Some {
                lemma_found(requests, n, claude.consumer_request_id->0@);
            }
            assert(explicit_edges(requests, tools[known[child]], child, parent) is Ok);
            let spawn = find_request(requests, n, claude.source_request_id@)->0;
            if at == 0 {
                assert((i, d) == (first, spawn));
            } else {
                assert(d == last);
            }
        } else {
            lemma_latest_start(requests, others, requests[first].start_ms as int);
            lemma_first_start(requests, others, requests[last].end_ms as int);
            if let Some(spawn) = latest_start(requests, others, requests[first].start_ms as int) {
                let there = others.index_of(spawn);
                assert(others[there] == spawn);
            }
            if let Some(join) = first_start(requests, others, requests[last].end_ms as int) {
                let there = others.index_of(join);
                assert(others[there] == join);
            }
            assert((i == first && belongs(requests[d], parent)) || (d == last && belongs(requests[i], parent)));
        }
    }
}

proof fn lemma_evidence(requests: Seq<RequestEntry>, tools: Seq<ToolEntry>, n: nat, k: int)
    requires
        launches(requests, tools, n) is Ok,
        0 <= k < n <= tools.len(),
        tools[k].claude is Some,
    ensures
        tool_failure(requests, tools[k]) is None,
    decreases n,
{
    if k < n - 1 {
        lemma_evidence(requests, tools, (n - 1) as nat, k);
    }
}

/// What tool calls say fits the requests of a graph: a call blocks or runs in the background, the
/// request that made it is one of its session, and so is the one that used its outcome, where that is
/// selected.
pub proof fn law_evidence_fits(trace: AgenticTrace, loaded: LoadedTrace, k: int)
    requires
        is_lowered(trace, loaded),
        0 <= k < loaded.tools@.len(),
        loaded.tools@[k].claude is Some,
    ensures
        ({
            let claude = loaded.tools@[k].claude->0;
            let session = loaded.tools@[k].session_id@;
            &&& claude.execution_mode@ == "blocking"@ || claude.execution_mode@ == "background"@
            &&& claude.source_request_id@.len() > 0 ==> exists|i: int|
                0 <= i < loaded.requests@.len() && (#[trigger] loaded.requests@[i]).request.source_request_id@
                    == claude.source_request_id@ && belongs(loaded.requests@[i], session)
            &&& forall|i: int|
                {
                    &&& 0 <= i < loaded.requests@.len()
                    &&& claude.consumer_request_id is Some
                    &&& claude.consumer_request_id->0@.len() > 0
                    &&& (#[trigger] loaded.requests@[i]).request.source_request_id@
                        == claude.consumer_request_id->0@
                } ==> belongs(loaded.requests@[i], session)
        }),
{
    let requests = loaded.requests@;
    let claude = loaded.tools@[k].claude->0;
    lemma_evidence(requests, loaded.tools@, loaded.tools@.len(), k);
    lemma_found(requests, requests.len(), claude.source_request_id@);
    if claude.source_request_id@.len() > 0 {
        let i = find_request(requests, requests.len(), claude.source_request_id@)->0;
        assert(belongs(requests[i], loaded.tools@[k].session_id@));
    }
    if claude.consumer_request_id is Some {
        let consumer = claude.consumer_request_id->0@;
        lemma_found(requests, requests.len(), consumer);
        assert forall|i: int|
            {
                &&& 0 <= i < requests.len()
                &&& consumer.len() > 0
                &&& (#[trigger] requests[i]).request.source_request_id@ == consumer
            } implies belongs(requests[i], loaded.tools@[k].session_id@) by {
            let found = find_request(requests, requests.len(), consumer)->0;
            if found < i {
                lemma_unique(requests, requests.len(), found, i);
            }
            if i < found {
                lemma_unique(requests, requests.len(), i, found);
            }
        }
    }
}

/// No two tool calls say that they launched the same session of a graph.
pub proof fn law_sessions_are_launched_once(trace: AgenticTrace, loaded: LoadedTrace, i: int, a: int, b: int)
    requires
        is_lowered(trace, loaded),
        0 <= i < loaded.requests@.len(),
        0 <= a < loaded.tools@.len(),
        0 <= b < loaded.tools@.len(),
        says_launched(loaded.tools@[a], loaded.requests@[i].request.agent_context->0.session_id@),
        says_launched(loaded.tools@[b], loaded.requests@[i].request.agent_context->0.session_id@),
    ensures
        a == b,
{
    let requests = loaded.requests@;
    let session = requests[i].request.agent_context->0.session_id@;
    assert(belongs(requests[i], session));
    lemma_sessions(requests, requests.len(), session);
    lemma_launches(requests, loaded.tools@, loaded.tools@.len(), session);
}

proof fn lemma_no_duplicate(requests: Seq<RequestEntry>, n: nat)
    requires
        n <= requests.len(),
        forall|i: int, j: int|
            0 <= i < j < requests.len() ==> (#[trigger] requests[i]).request.source_request_id@ != (
            #[trigger] requests[j]).request.source_request_id@,
    ensures
        first_duplicate(requests, n) is None,
    decreases n,
{
    if n > 0 {
        lemma_no_duplicate(requests, (n - 1) as nat);
        lemma_found(requests, (n - 1) as nat, requests[n - 1].request.source_request_id@);
    }
}

proof fn lemma_no_parents(requests: Seq<RequestEntry>, n: nat, session: Seq<char>)
    requires
        n <= requests.len(),
        forall|i: int|
            0 <= i < requests.len() ==> (#[trigger] requests[i]).request.agent_context->0.parent_session_id is None,
    ensures
        session_parent(requests, n, session) is None,
        first_conflict(requests, n) is None,
    decreases n,
{
    if n > 0 {
        lemma_no_parents(requests, (n - 1) as nat, session);
    }
}

proof fn lemma_no_evidence(requests: Seq<RequestEntry>, tools: Seq<ToolEntry>, n: nat)
    requires
        n <= tools.len(),
        forall|k: int| 0 <= k < tools.len() ==> (#[trigger] tools[k]).claude is None,
    ensures
        launches(requests, tools, n) is Ok,
    decreases n,
{
    if n > 0 {
        lemma_no_evidence(requests, tools, (n - 1) as nat);
    }
}

proof fn lemma_no_family(requests: Seq<RequestEntry>, tools: Seq<ToolEntry>, known: Map<Seq<char>, int>, n: nat)
    requires
        forall|session: Seq<char>| #[trigger] session_parent(requests, requests.len(), session) is None,
    ensures
        family_edges(requests, tools, known, n) == Ok::<Seq<(int, int)>, LowerFailure>(Seq::empty()),
    decreases n,
{
    if n > 0 {
        lemma_no_family(requests, tools, known, (n - 1) as nat);
    }
}

/// Requests with identifiers of their own, of sessions without parents or launch evidence, have a
/// graph: each waits for the one before it in its session.
pub proof fn law_plain_sessions_have_a_graph(requests: Seq<RequestEntry>, tools: Seq<ToolEntry>)
    requires
        requests.len() > 0,
        forall|i: int, j: int|
            0 <= i < j < requests.len() ==> (#[trigger] requests[i]).request.source_request_id@ != (
            #[trigger] requests[j]).request.source_request_id@,
        forall|i: int|
            0 <= i < requests.len() ==> (#[trigger] requests[i]).request.agent_context->0.parent_session_id is None,
        forall|k: int| 0 <= k < tools.len() ==> (#[trigger] tools[k]).claude is None,
    ensures
        causal_edges(requests, tools) is Ok,
{
    let n = requests.len();
    lemma_no_duplicate(requests, n);
    assert forall|session: Seq<char>| #[trigger] session_parent(requests, n, session) is None by {
        lemma_no_parents(requests, n, session);
    }
    lemma_no_parents(requests, n, Seq::empty());
    lemma_no_evidence(requests, tools, tools.len());
    let known = launches(requests, tools, tools.len())->Ok_0;
    lemma_no_family(requests, tools, known, sessions_in_order(requests, n).len());
    let edges = chain_edges(requests, n) + Seq::<(int, int)>::empty();
    assert(edges =~= chain_edges(requests, n));
    let rank = |i: int|
        if i >= 0 {
            i as nat
        } else {
            0
        };
    assert forall|i: int, k: int| 0 <= i < n && 0 <= k < dependencies_of(edges, i).len() implies rank(
        #[trigger] dependencies_of(edges, i)[k],
    ) < rank(i) by {
        let d = dependencies_of(edges, i)[k];
        lemma_dependency_has_edge(edges, i, d);
        lemma_chain(requests, n, i, d);
    }
    assert(edges_ranked_by(edges, n, rank));
    lemma_no_self(edges, n, n);
}

proof fn lemma_no_self(edges: Seq<(int, int)>, n: nat, m: nat)
    requires
        edges_are_acyclic(edges, n),
        m <= n,
    ensures
        first_self_dependency(edges, m) is None,
    decreases m,
{
    if m > 0 {
        lemma_no_self(edges, n, (m - 1) as nat);
        let rank = choose|rank: spec_fn(int) -> nat| edges_ranked_by(edges, n, rank);
        if dependencies_of(edges, m - 1).contains(m - 1) {
            let k = dependencies_of(edges, m - 1).index_of(m - 1);
            assert(rank(dependencies_of(edges, m - 1)[k]) < rank(m - 1));
        }
    }
}

// ---------------------------------------------------------------------------------------------
// Tools
// ---------------------------------------------------------------------------------------------

/// The milliseconds that `tool` takes of the `n` from `from` on.
pub open spec fn overlap(tool: ToolEntry, from: int, n: nat) -> int {
    let first = if tool.start_ms > from {
        tool.start_ms as int
    } else {
        from
    };
    let last = if tool.end_ms < from + n {
        tool.end_ms as int
    } else {
        from + n
    };
    if last > first {
        last - first
    } else {
        0
    }
}

/// One tool accounts for the time that its span and the delay have in common.
pub proof fn law_a_tool_takes_its_overlap(tool: ToolEntry, from: int, n: nat)
    ensures
        tool_time(seq![tool], tool.session_id@, from, n) == overlap(tool, from, n),
    decreases n,
{
    if n > 0 {
        law_a_tool_takes_its_overlap(tool, from, (n - 1) as nat);
        let ms = from + n - 1;
        let one = seq![tool];
        assert(one[0] == tool);
        if tool.start_ms <= ms < tool.end_ms {
            assert(spans(one[0], tool.session_id@, ms));
        }
    }
}

/// A tool of another session changes nothing, and neither does one more that runs only while
/// another one of its session does: time in which several run counts once.
pub proof fn law_shared_time_counts_once(
    tools: Seq<ToolEntry>,
    more: ToolEntry,
    session: Seq<char>,
    from: int,
    n: nat,
)
    requires
        more.session_id@ != session || exists|k: int|
            0 <= k < tools.len() && (#[trigger] tools[k]).session_id@ == session && tools[k].start_ms
                <= more.start_ms && more.end_ms <= tools[k].end_ms,
    ensures
        tool_time(tools.push(more), session, from, n) == tool_time(tools, session, from, n),
    decreases n,
{
    if n > 0 {
        law_shared_time_counts_once(tools, more, session, from, (n - 1) as nat);
        let ms = from + n - 1;
        let all = tools.push(more);
        if runs_tool(tools, session, ms) {
            let k = choose|k: int| 0 <= k < tools.len() && #[trigger] spans(tools[k], session, ms);
            assert(spans(all[k], session, ms));
        }
        if runs_tool(all, session, ms) {
            let k = choose|k: int| 0 <= k < all.len() && #[trigger] spans(all[k], session, ms);
            if k < tools.len() {
                assert(spans(tools[k], session, ms));
            } else {
                let other = choose|k: int|
                    0 <= k < tools.len() && (#[trigger] tools[k]).session_id@ == session && tools[k].start_ms
                        <= more.start_ms && more.end_ms <= tools[k].end_ms;
                assert(spans(tools[other], session, ms));
            }
        }
    }
}

/// Tools of a session that do not run at the same time account for the sum of what each accounts
/// for.
pub proof fn law_separate_tools_add_up(
    tools: Seq<ToolEntry>,
    more: ToolEntry,
    from: int,
    n: nat,
)
    requires
        forall|k: int|
            0 <= k < tools.len() && (#[trigger] tools[k]).session_id@ == more.session_id@ ==> tools[k].end_ms
                <= more.start_ms || more.end_ms <= tools[k].start_ms,
    ensures
        tool_time(tools.push(more), more.session_id@, from, n) == tool_time(tools, more.session_id@, from, n)
            + overlap(more, from, n),
    decreases n,
{
    if n > 0 {
        law_separate_tools_add_up(tools, more, from, (n - 1) as nat);
        let ms = from + n - 1;
        let session = more.session_id@;
        let all = tools.push(more);
        assert(all[tools.len() as int] == more);
        if runs_tool(tools, session, ms) {
            let k = choose|k: int| 0 <= k < tools.len() && #[trigger] spans(tools[k], session, ms);
            assert(spans(all[k], session, ms));
        }
        if more.start_ms <= ms < more.end_ms {
            assert(spans(all[tools.len() as int], session, ms));
        }
        if runs_tool(all, session, ms) {
            let k = choose|k: int| 0 <= k < all.len() && #[trigger] spans(all[k], session, ms);
            if k < tools.len() {
                assert(spans(tools[k], session, ms));
            }
        }
    }
}

/// The part of a delay that tools account for is the time, between the last end that a turn waits
/// for and its own start, in which tools of its session ran.
pub proof fn law_tool_delays_are_tool_time(trace: AgenticTrace, loaded: LoadedTrace, i: int, k: int)
    requires
        is_lowered(trace, loaded),
        0 <= i < trace.turns@.len(),
        ends_last_of(trace, loaded, i, k),
    ensures
        trace.turns@[i].tool_delay_ms == tool_time(
            loaded.tools@,
            loaded.requests@[i].request.agent_context->0.session_id@,
            loaded.requests@[trace.turns@[i].dependencies@[k] as int].end_ms as int,
            trace.turns@[i].delay_after_dependencies_ms as nat,
        ),
{
    lemma_last_end(trace, loaded, i, k);
}

/// Tool calls launch recorded sessions alone: a child that was not recorded is passed over, however
/// often it is named, and one that was is launched by a call that names it.
pub proof fn law_children_that_were_not_recorded_are_passed_over(
    requests: Seq<RequestEntry>,
    tools: Seq<ToolEntry>,
    n: nat,
    child: Seq<char>,
)
    requires
        n <= tools.len(),
    ensures
        launches(requests, tools, n) matches Ok(known) ==> (known.contains_key(child) ==> has_session(requests, child)
            && 0 <= known[child] < n && tools[known[child]].claude is Some
            && tools[known[child]].claude->0.child_session_id is Some
            && tools[known[child]].claude->0.child_session_id->0@ == child),
        launches(requests, tools, n) matches Err(LowerFailure::DuplicateChild { session_id }) ==> has_session(
            requests,
            session_id,
        ),
    decreases n,
{
    if n > 0 {
        law_children_that_were_not_recorded_are_passed_over(requests, tools, (n - 1) as nat, child);
    }
}

} // verus!
