//! What the report of a comparison says about the two traces.

use crate::compare::{
    all_hashes, by_id, by_x_id, context_view, core_matches, is_matched, is_report, metadata_of, metadata_value,
    offset_pair, options_failure, orders, pair_counted, pair_positions, paired, paired_side, same_lengths,
    same_metadata, same_topology, tallied, CompareOptions, FidelityReport, Matched, RequestMapping, Tally,
    MAX_MISMATCHES,
};
use crate::compare::ArrivalMeasure;
use crate::contracts::{texts, AgentContext, AgentContextView, TraceRequest, TraceRequestView};
use crate::json::same_json;
use crate::text::decimal;
use vstd::prelude::*;

verus! {

/// How many of the first `n` places have a property.
pub open spec fn how_many(n: nat, property: spec_fn(int) -> bool) -> nat
    decreases n,
{
    if n == 0 {
        0
    } else {
        how_many((n - 1) as nat, property) + if property(n - 1) {
            1nat
        } else {
            0nat
        }
    }
}

proof fn lemma_how_many(n: nat, property: spec_fn(int) -> bool)
    ensures
        how_many(n, property) <= n,
        how_many(n, property) == n <==> forall|i: int| 0 <= i < n ==> #[trigger] property(i),
        how_many(n, property) == 0 <==> forall|i: int| 0 <= i < n ==> !#[trigger] property(i),
    decreases n,
{
    if n > 0 {
        lemma_how_many((n - 1) as nat, property);
    }
}

/// Two contexts agree in everything but the compaction metadata.
pub open spec fn agree(a: Option<AgentContext>, b: Option<AgentContext>) -> bool {
    match (a, b) {
        (Some(left), Some(right)) => {
            &&& left.session_id@ == right.session_id@
            &&& left.parent_session_id is Some <==> right.parent_session_id is Some
            &&& left.parent_session_id is Some ==> left.parent_session_id->0@ == right.parent_session_id->0@
            &&& left.session_final == right.session_final
            &&& left.input_trigger is Some <==> right.input_trigger is Some
            &&& left.input_trigger is Some ==> left.input_trigger->0@ == right.input_trigger->0@
        },
        (None, None) => true,
        _ => false,
    }
}

/// Contexts match exactly where they agree in session, parent, finality and trigger; the compaction
/// metadata do not count.
pub proof fn law_contexts_match_in_every_part(a: Option<AgentContext>, b: Option<AgentContext>)
    ensures
        core_matches(context_view(a), context_view(b)) <==> agree(a, b),
        (a matches Some(left) && b matches Some(right) && core_matches(context_view(a), context_view(b)))
            ==> (AgentContextView { compaction: None, ..a->0@ }) == (AgentContextView { compaction: None, ..b->0@ }),
{
}

/// Compaction metadata count as known exactly where both requests have none, or both have some that
/// stand for the same value.
pub proof fn law_metadata_count_by_value(a: Option<AgentContext>, b: Option<AgentContext>)
    ensures
        ({
            let left = match a {
                Some(context) => context.compaction,
                None => None,
            };
            let right = match b {
                Some(context) => context.compaction,
                None => None,
            };
            same_metadata(metadata_of(context_view(a)), metadata_of(context_view(b))) <==> (left is None
                && right is None || left is Some && right is Some && same_json(
                metadata_value(left->0@),
                metadata_value(right->0@),
            ))
        }),
{
}

// ---------------------------------------------------------------------------------------------
// Pairs
// ---------------------------------------------------------------------------------------------

proof fn lemma_by_id(requests: Seq<TraceRequest>, n: nat, id: Seq<char>)
    requires
        n <= requests.len(),
    ensures
        by_id(requests, n, id) matches Some(i) ==> 0 <= i < n && requests[i].source_request_id@ == id && forall|j: int|
            i < j < n ==> (#[trigger] requests[j]).source_request_id@ != id,
        by_id(requests, n, id) is None ==> forall|j: int|
            0 <= j < n ==> (#[trigger] requests[j]).source_request_id@ != id,
        by_x_id(requests, n, id) matches Some(i) ==> 0 <= i < n && requests[i].source_x_request_id is Some
            && requests[i].source_x_request_id->0@ == id && forall|j: int|
            i < j < n && (#[trigger] requests[j]).source_x_request_id is Some
                ==> requests[j].source_x_request_id->0@ != id,
        by_x_id(requests, n, id) is None ==> forall|j: int|
            0 <= j < n && (#[trigger] requests[j]).source_x_request_id is Some
                ==> requests[j].source_x_request_id->0@ != id,
    decreases n,
{
    if n > 0 {
        lemma_by_id(requests, (n - 1) as nat, id);
    }
}

/// A request of the source has the identifier that a mapping names.
pub open spec fn has_source(source: Seq<TraceRequest>, mapping: RequestMapping) -> bool {
    exists|i: int|
        0 <= i < source.len() && (#[trigger] source[i]).source_request_id@ == mapping.source_request_id@
}

/// A request of the replay has the correlation identifier that a mapping names.
pub open spec fn has_replay(replay: Seq<TraceRequest>, mapping: RequestMapping) -> bool {
    exists|i: int|
        0 <= i < replay.len() && (#[trigger] replay[i]).source_x_request_id is Some
            && replay[i].source_x_request_id->0@ == mapping.replay_request_id@
}

/// A pair is what a mapping says.
pub open spec fn is_pair_of(
    source: Seq<TraceRequest>,
    replay: Seq<TraceRequest>,
    mapping: RequestMapping,
    pair: (int, int),
) -> bool {
    &&& 0 <= pair.0 < source.len()
    &&& 0 <= pair.1 < replay.len()
    &&& source[pair.0].source_request_id@ == mapping.source_request_id@
    &&& replay[pair.1].source_x_request_id is Some
    &&& replay[pair.1].source_x_request_id->0@ == mapping.replay_request_id@
}

proof fn lemma_paired(
    source: Seq<TraceRequest>,
    replay: Seq<TraceRequest>,
    mappings: Seq<RequestMapping>,
    n: nat,
)
    requires
        n <= mappings.len(),
    ensures
        ({
            let found = paired(source, replay, mappings, n);
            &&& found.missing_source == how_many(n, |i: int| !has_source(source, mappings[i]))
            &&& found.missing_replay == how_many(
                n,
                |i: int| has_source(source, mappings[i]) && !has_replay(replay, mappings[i]),
            )
            &&& found.pairs.len() + found.missing_source + found.missing_replay == n
            &&& forall|k: int|
                0 <= k < found.pairs.len() ==> exists|i: int|
                    0 <= i < n && is_pair_of(source, replay, #[trigger] mappings[i], #[trigger] found.pairs[k])
            &&& forall|i: int|
                0 <= i < n && has_source(source, #[trigger] mappings[i]) && has_replay(replay, mappings[i])
                    ==> exists|k: int|
                    0 <= k < found.pairs.len() && is_pair_of(source, replay, mappings[i], #[trigger] found.pairs[k])
            &&& found.mismatches.len() == if found.missing_source + found.missing_replay < MAX_MISMATCHES {
                found.missing_source + found.missing_replay
            } else {
                MAX_MISMATCHES as nat
            }
        }),
    decreases n,
{
    if n > 0 {
        let m = (n - 1) as nat;
        lemma_paired(source, replay, mappings, m);
        let before = paired(source, replay, mappings, m);
        let found = paired(source, replay, mappings, n);
        let mapping = mappings[n - 1];
        lemma_by_id(source, source.len(), mapping.source_request_id@);
        lemma_by_id(replay, replay.len(), mapping.replay_request_id@);
        if let Some(s) = by_id(source, source.len(), mapping.source_request_id@) {
            assert(source[s].source_request_id@ == mapping.source_request_id@);
            if let Some(r) = by_x_id(replay, replay.len(), mapping.replay_request_id@) {
                assert(replay[r].source_x_request_id is Some);
                assert(found.pairs[before.pairs.len() as int] == (s, r));
                assert(is_pair_of(source, replay, mapping, found.pairs[before.pairs.len() as int]));
            }
        }
        assert forall|k: int| 0 <= k < found.pairs.len() implies exists|i: int|
            0 <= i < n && is_pair_of(source, replay, #[trigger] mappings[i], #[trigger] found.pairs[k]) by {
            if k < before.pairs.len() {
                assert(found.pairs[k] == before.pairs[k]);
                let i = choose|i: int|
                    0 <= i < m && is_pair_of(source, replay, #[trigger] mappings[i], before.pairs[k]);
                assert(is_pair_of(source, replay, mappings[i], found.pairs[k]));
            } else {
                assert(is_pair_of(source, replay, mappings[n - 1], found.pairs[k]));
            }
        }
        assert forall|i: int|
            0 <= i < n && has_source(source, #[trigger] mappings[i]) && has_replay(replay, mappings[i]) implies exists|
            k: int,
        | 0 <= k < found.pairs.len() && is_pair_of(source, replay, mappings[i], #[trigger] found.pairs[k]) by {
            if i < m {
                let k = choose|k: int|
                    0 <= k < before.pairs.len() && is_pair_of(source, replay, mappings[i], #[trigger] before.pairs[k]);
                assert(found.pairs[k] == before.pairs[k]);
            }
        }
    }
}

/// Each mapping whose two requests are there gives a pair, and nothing else does; the others are
/// counted by what they miss, the source first. Pairs come in the order of the source.
pub proof fn law_pairs_follow_the_mappings(
    matched: Matched,
    source: Seq<TraceRequest>,
    replay: Seq<TraceRequest>,
    mappings: Seq<RequestMapping>,
)
    requires
        is_matched(matched, source, replay, mappings),
    ensures
        matched.missing_source_requests == how_many(
            mappings.len(),
            |i: int| !has_source(source, mappings[i]),
        ),
        matched.missing_replay_requests == how_many(
            mappings.len(),
            |i: int| has_source(source, mappings[i]) && !has_replay(replay, mappings[i]),
        ),
        matched.pairs@.len() + matched.missing_source_requests + matched.missing_replay_requests == mappings.len(),
        forall|k: int|
            0 <= k < matched.pairs@.len() ==> exists|i: int|
                0 <= i < mappings.len() && is_pair_of(
                    source,
                    replay,
                    #[trigger] mappings[i],
                    (matched.pairs@[k].0 as int, (#[trigger] matched.pairs@[k]).1 as int),
                ),
        forall|i: int|
            0 <= i < mappings.len() && has_source(source, #[trigger] mappings[i]) && has_replay(replay, mappings[i])
                ==> exists|k: int|
                0 <= k < matched.pairs@.len() && is_pair_of(
                    source,
                    replay,
                    mappings[i],
                    (matched.pairs@[k].0 as int, (#[trigger] matched.pairs@[k]).1 as int),
                ),
        forall|k: int, l: int|
            0 <= k < l < matched.pairs@.len() ==> source[(#[trigger] matched.pairs@[k]).0 as int].ordinal
                <= source[(#[trigger] matched.pairs@[l]).0 as int].ordinal,
{
    let found = paired(source, replay, mappings, mappings.len());
    let n = mappings.len();
    lemma_paired(source, replay, mappings, n);
    let listed = pair_positions(matched.pairs@);
    let order = choose|order: Seq<int>| #[trigger]
        orders(order, found.pairs, source) && listed == Seq::new(order.len(), |i: int| found.pairs[order[i]]);
    assert(listed.len() == matched.pairs@.len());
    assert forall|k: int| 0 <= k < matched.pairs@.len() implies exists|i: int|
        0 <= i < mappings.len() && is_pair_of(
            source,
            replay,
            #[trigger] mappings[i],
            (matched.pairs@[k].0 as int, (#[trigger] matched.pairs@[k]).1 as int),
        ) by {
        assert(listed[k] == found.pairs[order[k]]);
        let at = order[k];
        let i = choose|i: int| 0 <= i < n && is_pair_of(source, replay, #[trigger] mappings[i], found.pairs[at]);
        assert(is_pair_of(source, replay, mappings[i], listed[k]));
    }
    assert forall|i: int|
        0 <= i < mappings.len() && has_source(source, #[trigger] mappings[i]) && has_replay(
            replay,
            mappings[i],
        ) implies exists|k: int|
        0 <= k < matched.pairs@.len() && is_pair_of(
            source,
            replay,
            mappings[i],
            (matched.pairs@[k].0 as int, (#[trigger] matched.pairs@[k]).1 as int),
        ) by {
        let at = choose|at: int|
            0 <= at < found.pairs.len() && is_pair_of(source, replay, mappings[i], #[trigger] found.pairs[at]);
        lemma_order_covers(order, found.pairs.len() as int, at);
        let k = order.index_of(at);
        assert(listed[k] == found.pairs[at]);
        assert(matched.pairs@[k] == matched.pairs@[k]);
    }
    assert forall|k: int, l: int| 0 <= k < l < matched.pairs@.len() implies source[(
    #[trigger] matched.pairs@[k]).0 as int].ordinal <= source[(#[trigger] matched.pairs@[l]).0 as int].ordinal by {
        assert(listed[k] == found.pairs[order[k]]);
        assert(listed[l] == found.pairs[order[l]]);
    }
}

proof fn lemma_order_covers(order: Seq<int>, n: int, at: int)
    requires
        order.no_duplicates(),
        order.len() == n,
        forall|i: int| 0 <= i < order.len() ==> 0 <= #[trigger] order[i] < n,
        0 <= at < n,
    ensures
        order.contains(at),
{
    let all = vstd::set_lib::set_int_range(0, n);
    vstd::set_lib::lemma_int_range(0, n);
    order.unique_seq_to_set();
    assert(order.to_set().subset_of(all)) by {
        assert forall|x: int| order.to_set().contains(x) implies all.contains(x) by {
            let q = order.index_of(x);
            assert(0 <= order[q] < n);
        }
    }
    vstd::set_lib::lemma_subset_equality(order.to_set(), all);
    assert(order.to_set().contains(at));
}

// ---------------------------------------------------------------------------------------------
// Reports
// ---------------------------------------------------------------------------------------------

/// The two requests of pair `k`.
pub open spec fn left(source: Seq<TraceRequest>, matched: Matched, k: int) -> TraceRequest {
    source[matched.pairs@[k].0 as int]
}

pub open spec fn right(replay: Seq<TraceRequest>, matched: Matched, k: int) -> TraceRequest {
    replay[matched.pairs@[k].1 as int]
}

proof fn lemma_tally(
    source: Seq<TraceRequest>,
    replay: Seq<TraceRequest>,
    matched: Matched,
    mismatches: Seq<Seq<char>>,
    n: nat,
)
    requires
        n <= matched.pairs@.len(),
    ensures
        ({
            let t = tallied(source, replay, matched.pairs@, mismatches, n);
            &&& t.block_size == how_many(
                n,
                |k: int| left(source, matched, k).trace_block_size == right(replay, matched, k).trace_block_size,
            )
            &&& t.input_length == how_many(
                n,
                |k: int| left(source, matched, k).input_tokens == right(replay, matched, k).input_tokens,
            )
            &&& t.output_length == how_many(
                n,
                |k: int| left(source, matched, k).output_tokens == right(replay, matched, k).output_tokens,
            )
            &&& t.context == how_many(
                n,
                |k: int| agree(left(source, matched, k).agent_context, right(replay, matched, k).agent_context),
            )
            &&& t.metadata + t.unverifiable == n
            &&& t.metadata == how_many(
                n,
                |k: int|
                    same_metadata(
                        metadata_of(context_view(left(source, matched, k).agent_context)),
                        metadata_of(context_view(right(replay, matched, k).agent_context)),
                    ),
            )
            &&& mismatches.len() <= t.mismatches.len()
            &&& t.mismatches.len() == mismatches.len() <==> mismatches.len() >= MAX_MISMATCHES || t.block_size == n
                && t.input_length == n && t.output_length == n && t.context == n
            &&& mismatches.len() <= MAX_MISMATCHES ==> t.mismatches.len() <= MAX_MISMATCHES
            &&& t.warnings.len() == if t.unverifiable < MAX_MISMATCHES {
                t.unverifiable
            } else {
                MAX_MISMATCHES as nat
            }
        }),
    decreases n,
{
    if n > 0 {
        let m = (n - 1) as nat;
        lemma_tally(source, replay, matched, mismatches, m);
        let t = tallied(source, replay, matched.pairs@, mismatches, m);
        let (s, r) = matched.pairs@[n - 1];
        let a = source[s as int];
        let b = replay[r as int];
        law_contexts_match_in_every_part(a.agent_context, b.agent_context);
        lemma_how_many(
            m,
            |k: int| left(source, matched, k).trace_block_size == right(replay, matched, k).trace_block_size,
        );
        lemma_how_many(m, |k: int| left(source, matched, k).input_tokens == right(replay, matched, k).input_tokens);
        lemma_how_many(m, |k: int| left(source, matched, k).output_tokens == right(replay, matched, k).output_tokens);
        lemma_how_many(
            m,
            |k: int| agree(left(source, matched, k).agent_context, right(replay, matched, k).agent_context),
        );
    }
}

/// What a report counts: the pairs in which block sizes, input lengths, output lengths and contexts
/// are equal, and those whose compaction metadata are.
pub proof fn law_reports_count_equal_pairs(
    report: FidelityReport,
    source: Seq<TraceRequest>,
    replay: Seq<TraceRequest>,
    mappings: nat,
    matched: Matched,
    arrival: ArrivalMeasure,
    options: CompareOptions,
)
    requires
        is_report(report, source, replay, mappings, matched, arrival, options),
    ensures
        report.source_request_count == source.len(),
        report.replay_request_count == replay.len(),
        report.mapped_request_count == matched.pairs@.len(),
        report.missing_source_requests == matched.missing_source_requests,
        report.missing_replay_requests == matched.missing_replay_requests,
        report.trace_block_size_matches == how_many(
            matched.pairs@.len(),
            |k: int| left(source, matched, k).trace_block_size == right(replay, matched, k).trace_block_size,
        ),
        report.input_length_matches == how_many(
            matched.pairs@.len(),
            |k: int| left(source, matched, k).input_tokens == right(replay, matched, k).input_tokens,
        ),
        report.output_length_matches == how_many(
            matched.pairs@.len(),
            |k: int| left(source, matched, k).output_tokens == right(replay, matched, k).output_tokens,
        ),
        report.agent_context_matches == how_many(
            matched.pairs@.len(),
            |k: int| agree(left(source, matched, k).agent_context, right(replay, matched, k).agent_context),
        ),
        report.compaction_metadata_matches == how_many(
            matched.pairs@.len(),
            |k: int|
                same_metadata(
                    metadata_of(context_view(left(source, matched, k).agent_context)),
                    metadata_of(context_view(right(replay, matched, k).agent_context)),
                ),
        ),
        report.compaction_metadata_matches + report.unverifiable_compaction_metadata == matched.pairs@.len(),
        report.arrival_error_ms.mean_signed == arrival.mean_signed_ms,
        report.time_scale == options.time_scale,
        report.max_arrival_p99_ms == options.max_arrival_p99_ms,
        report.max_arrival_max_ms == options.max_arrival_max_ms,
{
    lemma_tally(source, replay, matched, texts(matched.mismatches@), matched.pairs@.len());
}

/// The hashes of the pairs have one shape: a request has as many as its partner, and two of one side
/// are equal exactly where the two at the same places of the other side are.
pub open spec fn one_shape(source: Seq<TraceRequest>, replay: Seq<TraceRequest>, matched: Matched) -> bool {
    &&& forall|k: int|
        0 <= k < matched.pairs@.len() ==> (#[trigger] left(source, matched, k)).input_sequence_hashes@.len() == right(
            replay,
            matched,
            k,
        ).input_sequence_hashes@.len()
    &&& forall|k: int, i: int, l: int, j: int|
        {
            &&& 0 <= k < matched.pairs@.len()
            &&& 0 <= l < matched.pairs@.len()
            &&& 0 <= i < left(source, matched, k).input_sequence_hashes@.len()
            &&& 0 <= j < left(source, matched, l).input_sequence_hashes@.len()
        } ==> (#[trigger] left(source, matched, k).input_sequence_hashes@[i] == #[trigger] left(
            source,
            matched,
            l,
        ).input_sequence_hashes@[j] <==> right(replay, matched, k).input_sequence_hashes@[i] == right(
            replay,
            matched,
            l,
        ).input_sequence_hashes@[j])
}

proof fn lemma_place(requests: Seq<TraceRequest>, n: nat, i: int, j: int)
    requires
        0 <= i < n <= requests.len(),
        0 <= j < requests[i].input_sequence_hashes@.len(),
    ensures
        all_hashes(requests, i as nat).len() + j < all_hashes(requests, n).len(),
        all_hashes(requests, n)[all_hashes(requests, i as nat).len() + j] == requests[i].input_sequence_hashes@[j],
    decreases n,
{
    if i < n - 1 {
        lemma_place(requests, (n - 1) as nat, i, j);
    }
}

proof fn lemma_place_of(requests: Seq<TraceRequest>, n: nat, at: int) -> (place: (int, int))
    requires
        n <= requests.len(),
        0 <= at < all_hashes(requests, n).len(),
    ensures
        0 <= place.0 < n,
        0 <= place.1 < requests[place.0].input_sequence_hashes@.len(),
        at == all_hashes(requests, place.0 as nat).len() + place.1,
    decreases n,
{
    let before = all_hashes(requests, (n - 1) as nat).len() as int;
    if at < before {
        lemma_place_of(requests, (n - 1) as nat, at)
    } else {
        (n - 1, at - before)
    }
}

proof fn lemma_starts(a: Seq<TraceRequest>, b: Seq<TraceRequest>, n: nat)
    requires
        same_lengths(a, b),
        n <= a.len(),
    ensures
        all_hashes(a, n).len() == all_hashes(b, n).len(),
    decreases n,
{
    if n > 0 {
        lemma_starts(a, b, (n - 1) as nat);
        assert(a[n - 1].input_sequence_hashes@.len() == b[n - 1].input_sequence_hashes@.len());
    }
}

proof fn lemma_one_shape(source: Seq<TraceRequest>, replay: Seq<TraceRequest>, matched: Matched)
    ensures
        same_topology(
            paired_side(source, replay, matched.pairs@, true),
            paired_side(source, replay, matched.pairs@, false),
        ) <==> one_shape(source, replay, matched),
{
    let a = paired_side(source, replay, matched.pairs@, true);
    let b = paired_side(source, replay, matched.pairs@, false);
    let n = matched.pairs@.len();
    let ha = all_hashes(a, n);
    let hb = all_hashes(b, n);
    assert forall|k: int| 0 <= k < n implies a[k] == #[trigger] left(source, matched, k) && b[k] == right(
        replay,
        matched,
        k,
    ) by {}
    if same_topology(a, b) {
        assert forall|k: int| 0 <= k < n implies (#[trigger] left(source, matched, k)).input_sequence_hashes@.len()
            == right(replay, matched, k).input_sequence_hashes@.len() by {
            assert(a[k].input_sequence_hashes@.len() == b[k].input_sequence_hashes@.len());
        }
        assert forall|k: int, i: int, l: int, j: int|
            {
                &&& 0 <= k < n
                &&& 0 <= l < n
                &&& 0 <= i < left(source, matched, k).input_sequence_hashes@.len()
                &&& 0 <= j < left(source, matched, l).input_sequence_hashes@.len()
            } implies (#[trigger] left(source, matched, k).input_sequence_hashes@[i] == #[trigger] left(
            source,
            matched,
            l,
        ).input_sequence_hashes@[j] <==> right(replay, matched, k).input_sequence_hashes@[i] == right(
            replay,
            matched,
            l,
        ).input_sequence_hashes@[j]) by {
            assert(a[k].input_sequence_hashes@.len() == b[k].input_sequence_hashes@.len());
            assert(a[l].input_sequence_hashes@.len() == b[l].input_sequence_hashes@.len());
            lemma_starts(a, b, k as nat);
            lemma_starts(a, b, l as nat);
            lemma_place(a, n, k, i);
            lemma_place(a, n, l, j);
            lemma_place(b, n, k, i);
            lemma_place(b, n, l, j);
            let x = all_hashes(a, k as nat).len() + i;
            let y = all_hashes(a, l as nat).len() + j;
            assert(ha[x] == ha[y] <==> hb[x] == hb[y]);
        }
    }
    if one_shape(source, replay, matched) {
        assert forall|k: int| 0 <= k < a.len() implies (#[trigger] a[k]).input_sequence_hashes@.len()
            == b[k].input_sequence_hashes@.len() by {
            assert(left(source, matched, k).input_sequence_hashes@.len() == right(
                replay,
                matched,
                k,
            ).input_sequence_hashes@.len());
        }
        lemma_starts(a, b, n);
        assert forall|x: int, y: int| 0 <= x < ha.len() && 0 <= y < ha.len() implies (#[trigger] ha[x]
            == #[trigger] ha[y] <==> hb[x] == hb[y]) by {
            let (k, i) = lemma_place_of(a, n, x);
            let (l, j) = lemma_place_of(a, n, y);
            assert(a[k].input_sequence_hashes@.len() == b[k].input_sequence_hashes@.len());
            assert(a[l].input_sequence_hashes@.len() == b[l].input_sequence_hashes@.len());
            lemma_starts(a, b, k as nat);
            lemma_starts(a, b, l as nat);
            lemma_place(a, n, k, i);
            lemma_place(a, n, l, j);
            lemma_place(b, n, k, i);
            lemma_place(b, n, l, j);
            assert(left(source, matched, k).input_sequence_hashes@[i] == left(
                source,
                matched,
                l,
            ).input_sequence_hashes@[j] <==> right(replay, matched, k).input_sequence_hashes@[i] == right(
                replay,
                matched,
                l,
            ).input_sequence_hashes@[j]);
        }
    }
}

/// A replay passes exactly where every mapping gave a pair, the two requests of each pair agree in
/// block size, input length, output length and context, the hashes of all pairs have one shape, and
/// the arrival errors keep to the limits.
pub proof fn law_passing_means_fidelity(
    report: FidelityReport,
    source: Seq<TraceRequest>,
    replay: Seq<TraceRequest>,
    mappings: nat,
    matched: Matched,
    arrival: ArrivalMeasure,
    options: CompareOptions,
)
    requires
        is_report(report, source, replay, mappings, matched, arrival, options),
        options_failure(options) is None,
    ensures
        report.prefix_topology_matches <==> one_shape(source, replay, matched),
        report.arrival_timing_matches <==> {
            &&& options.max_arrival_p99_ms.bits == 0x8000_0000_0000_0000 ==> report.arrival_error_ms.absolute.p99 == 0
            &&& options.max_arrival_p99_ms.bits != 0x8000_0000_0000_0000 ==> report.arrival_error_ms.absolute.p99
                <= options.max_arrival_p99_ms.bits
            &&& options.max_arrival_max_ms.bits == 0x8000_0000_0000_0000 ==> report.arrival_error_ms.absolute.max == 0
            &&& options.max_arrival_max_ms.bits != 0x8000_0000_0000_0000 ==> report.arrival_error_ms.absolute.max
                <= options.max_arrival_max_ms.bits
        },
        report.passed <==> {
            &&& matched.pairs@.len() == mappings
            &&& forall|k: int|
                0 <= k < matched.pairs@.len() ==> {
                    let a = #[trigger] left(source, matched, k);
                    let b = right(replay, matched, k);
                    &&& a.trace_block_size == b.trace_block_size
                    &&& a.input_tokens == b.input_tokens
                    &&& a.output_tokens == b.output_tokens
                    &&& agree(a.agent_context, b.agent_context)
                }
            &&& report.prefix_topology_matches
            &&& report.arrival_timing_matches
        },
{
    let n = matched.pairs@.len();
    lemma_tally(source, replay, matched, texts(matched.mismatches@), n);
    lemma_one_shape(source, replay, matched);
    let sizes = |k: int| left(source, matched, k).trace_block_size == right(replay, matched, k).trace_block_size;
    let inputs = |k: int| left(source, matched, k).input_tokens == right(replay, matched, k).input_tokens;
    let outputs = |k: int| left(source, matched, k).output_tokens == right(replay, matched, k).output_tokens;
    let contexts = |k: int| agree(left(source, matched, k).agent_context, right(replay, matched, k).agent_context);
    lemma_how_many(n, sizes);
    lemma_how_many(n, inputs);
    lemma_how_many(n, outputs);
    lemma_how_many(n, contexts);
    if forall|k: int|
        0 <= k < n ==> {
            let a = #[trigger] left(source, matched, k);
            let b = right(replay, matched, k);
            &&& a.trace_block_size == b.trace_block_size
            &&& a.input_tokens == b.input_tokens
            &&& a.output_tokens == b.output_tokens
            &&& agree(a.agent_context, b.agent_context)
        } {
        assert forall|k: int| 0 <= k < n implies #[trigger] sizes(k) by {
            let a = left(source, matched, k);
        }
        assert forall|k: int| 0 <= k < n implies #[trigger] inputs(k) by {
            let a = left(source, matched, k);
        }
        assert forall|k: int| 0 <= k < n implies #[trigger] outputs(k) by {
            let a = left(source, matched, k);
        }
        assert forall|k: int| 0 <= k < n implies #[trigger] contexts(k) by {
            let a = left(source, matched, k);
        }
    }
    if report.passed {
        assert forall|k: int| 0 <= k < n implies {
            let a = #[trigger] left(source, matched, k);
            let b = right(replay, matched, k);
            &&& a.trace_block_size == b.trace_block_size
            &&& a.input_tokens == b.input_tokens
            &&& a.output_tokens == b.output_tokens
            &&& agree(a.agent_context, b.agent_context)
        } by {
            assert(sizes(k) && inputs(k) && outputs(k) && contexts(k));
        }
    }
}

/// A report of a replay lists no differences exactly where the replay passes, and never more than it
/// has room for.
pub proof fn law_differences_are_listed(
    report: FidelityReport,
    source: Seq<TraceRequest>,
    replay: Seq<TraceRequest>,
    mappings: Seq<RequestMapping>,
    matched: Matched,
    arrival: ArrivalMeasure,
    options: CompareOptions,
)
    requires
        is_matched(matched, source, replay, mappings),
        is_report(report, source, replay, mappings.len(), matched, arrival, options),
    ensures
        report.mismatches@.len() == 0 <==> report.passed,
        report.mismatches@.len() <= 100,
        report.warnings@.len() <= 100,
        report.warnings@.len() == 0 <==> report.unverifiable_compaction_metadata == 0,
{
    lemma_tally(source, replay, matched, texts(matched.mismatches@), matched.pairs@.len());
    lemma_paired(source, replay, mappings, mappings.len());
    let found = paired(source, replay, mappings, mappings.len());
    let listed = pair_positions(matched.pairs@);
    let order = choose|order: Seq<int>| #[trigger]
        orders(order, found.pairs, source) && listed == Seq::new(order.len(), |i: int| found.pairs[order[i]]);
    assert(listed.len() == found.pairs.len());
    assert(texts(report.mismatches@).len() == report.mismatches@.len());
    assert(texts(report.warnings@).len() == report.warnings@.len());
    assert(texts(matched.mismatches@).len() == found.mismatches.len());
}

// ---------------------------------------------------------------------------------------------
// Messages
// ---------------------------------------------------------------------------------------------

/// What a report says where a field of a request differs.
pub open spec fn difference(id: Seq<char>, field: Seq<char>, source: Seq<char>, replay: Seq<char>) -> Seq<char> {
    "request "@ + id + " "@ + field + " mismatch: source="@ + source + ", replay="@ + replay
}

proof fn lemma_tallied_grows(
    source: Seq<TraceRequest>,
    replay: Seq<TraceRequest>,
    pairs: Seq<(usize, usize)>,
    mismatches: Seq<Seq<char>>,
    n: nat,
    m: nat,
    k: int,
)
    requires
        n <= m,
        0 <= k < tallied(source, replay, pairs, mismatches, n).mismatches.len(),
    ensures
        k < tallied(source, replay, pairs, mismatches, m).mismatches.len(),
        tallied(source, replay, pairs, mismatches, m).mismatches[k] == tallied(
            source,
            replay,
            pairs,
            mismatches,
            n,
        ).mismatches[k],
    decreases m,
{
    if n < m {
        lemma_tallied_grows(source, replay, pairs, mismatches, n, (m - 1) as nat, k);
    }
}

proof fn lemma_pair_tells(t: Tally, s: TraceRequestView, r: TraceRequestView)
    requires
        t.mismatches.len() <= 96,
    ensures
        ({
            let after = pair_counted(t, s, r).mismatches;
            let id = s.source_request_id;
            &&& s.trace_block_size != r.trace_block_size ==> after.contains(
                difference(
                    id,
                    "trace_block_size"@,
                    decimal(s.trace_block_size as nat),
                    decimal(r.trace_block_size as nat),
                ),
            )
            &&& s.input_tokens != r.input_tokens ==> after.contains(
                difference(id, "input_tokens"@, decimal(s.input_tokens as nat), decimal(r.input_tokens as nat)),
            )
            &&& s.output_tokens != r.output_tokens ==> after.contains(
                difference(id, "output_tokens"@, decimal(s.output_tokens as nat), decimal(r.output_tokens as nat)),
            )
        }),
{
    let after = pair_counted(t, s, r).mismatches;
    let at = t.mismatches.len() as int;
    let one: int = if s.trace_block_size != r.trace_block_size {
        1
    } else {
        0
    };
    let two: int = if s.input_tokens != r.input_tokens {
        1
    } else {
        0
    };
    if s.trace_block_size != r.trace_block_size {
        assert(after[at] == difference(
            s.source_request_id,
            "trace_block_size"@,
            decimal(s.trace_block_size as nat),
            decimal(r.trace_block_size as nat),
        ));
    }
    if s.input_tokens != r.input_tokens {
        assert(after[at + one] == difference(
            s.source_request_id,
            "input_tokens"@,
            decimal(s.input_tokens as nat),
            decimal(r.input_tokens as nat),
        ));
    }
    if s.output_tokens != r.output_tokens {
        assert(after[at + one + two] == difference(
            s.source_request_id,
            "output_tokens"@,
            decimal(s.output_tokens as nat),
            decimal(r.output_tokens as nat),
        ));
    }
}

/// As long as there is room, a report tells of each pair which of its lengths differ, and by what.
pub proof fn law_differences_are_told(
    report: FidelityReport,
    source: Seq<TraceRequest>,
    replay: Seq<TraceRequest>,
    mappings: nat,
    matched: Matched,
    arrival: ArrivalMeasure,
    options: CompareOptions,
    k: int,
)
    requires
        is_report(report, source, replay, mappings, matched, arrival, options),
        0 <= k < matched.pairs@.len(),
        tallied(source, replay, matched.pairs@, texts(matched.mismatches@), k as nat).mismatches.len() <= 96,
    ensures
        ({
            let a = left(source, matched, k);
            let b = right(replay, matched, k);
            let told = texts(report.mismatches@);
            let id = a.source_request_id@;
            &&& a.trace_block_size != b.trace_block_size ==> told.contains(
                difference(
                    id,
                    "trace_block_size"@,
                    decimal(a.trace_block_size as nat),
                    decimal(b.trace_block_size as nat),
                ),
            )
            &&& a.input_tokens != b.input_tokens ==> told.contains(
                difference(id, "input_tokens"@, decimal(a.input_tokens as nat), decimal(b.input_tokens as nat)),
            )
            &&& a.output_tokens != b.output_tokens ==> told.contains(
                difference(id, "output_tokens"@, decimal(a.output_tokens as nat), decimal(b.output_tokens as nat)),
            )
        }),
{
    let pairs = matched.pairs@;
    let first = texts(matched.mismatches@);
    let (s, r) = pairs[k];
    let before = tallied(source, replay, pairs, first, k as nat);
    let after = tallied(source, replay, pairs, first, (k + 1) as nat);
    let last = tallied(source, replay, pairs, first, pairs.len());
    let told = texts(report.mismatches@);
    lemma_pair_tells(before, source[s as int]@, replay[r as int]@);
    assert(after.mismatches == pair_counted(before, source[s as int]@, replay[r as int]@).mismatches);
    assert forall|text: Seq<char>| #[trigger] after.mismatches.contains(text) implies told.contains(text) by {
        let j = after.mismatches.index_of(text);
        lemma_tallied_grows(source, replay, pairs, first, (k + 1) as nat, pairs.len(), j);
        assert(told[j] == last.mismatches[j]);
    }
}

/// Arrivals are measured from the first pair: both of its offsets are zero, and the offsets of two pairs
/// are as far apart as their arrivals.
pub proof fn law_arrivals_are_measured_from_the_first(
    source: Seq<TraceRequest>,
    replay: Seq<TraceRequest>,
    first: (usize, usize),
    a: (usize, usize),
    b: (usize, usize),
)
    ensures
        ({
            let (zero_source, zero_replay) = offset_pair(source, replay, first, first);
            zero_source == 0 && zero_replay == 0
        }),
        ({
            let (a_source, a_replay) = offset_pair(source, replay, first, a);
            let (b_source, b_replay) = offset_pair(source, replay, first, b);
            &&& b_source - a_source == source[b.0 as int].request_received_ms - source[a.0 as int].request_received_ms
            &&& b_replay - a_replay == replay[b.1 as int].request_received_ms - replay[a.1 as int].request_received_ms
        }),
{
}

} // verus!
