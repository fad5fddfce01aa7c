//! Comparing a captured replay with its source.

use crate::contracts::{
    optional_text, percentiles, percentiles_of, same_optional, texts, AgentContext, AgentContextView,
    Percentiles, TraceRequest, TraceRequestView,
};
use crate::double::Real;
use crate::json::{
    debug_value, debugged, json_value, read_json, same_json, same_values, string_value, value_view, JsonView,
};
use crate::ordered::{is_sorted, sort, Ranked};
use crate::text::{debug_quoted, decimal, decimal_text, quoted};
use crate::trace::load::lemma_push_to_set;
use std::collections::HashMap;
use vstd::hash_map::StringHashMap;
use vstd::prelude::*;
use vstd::utf8::encode_utf8;

verus! {

/// Which replayed request stands for which source request.
#[derive(Debug)]
pub struct RequestMapping {
    pub source_request_id: String,
    pub replay_request_id: String,
}

/// How exact a replay has to be.
#[derive(Debug, Clone, Copy)]
pub struct CompareOptions {
    pub time_scale: Real,
    pub max_arrival_p99_ms: Real,
    pub max_arrival_max_ms: Real,
}

/// How far the arrivals of the paired requests lie from where they should, in double arithmetic:
/// the absolute errors, none of them negative, their signed mean, and the words to report where
/// they exceed the limits.
#[derive(Debug)]
pub struct ArrivalMeasure {
    pub absolute_ms: Vec<Real>,
    pub mean_signed_ms: Real,
    pub breach: String,
}

/// Order statistics of arrival errors, as the bits of doubles, and their signed mean.
#[derive(Debug, Clone, Copy)]
pub struct ArrivalError {
    pub absolute: Percentiles,
    pub mean_signed: Real,
}

/// The outcome of a comparison.
#[derive(Debug)]
pub struct FidelityReport {
    pub time_scale: Real,
    pub max_arrival_p99_ms: Real,
    pub max_arrival_max_ms: Real,
    pub source_request_count: usize,
    pub replay_request_count: usize,
    pub mapped_request_count: usize,
    pub missing_source_requests: usize,
    pub missing_replay_requests: usize,
    pub trace_block_size_matches: usize,
    pub input_length_matches: usize,
    pub output_length_matches: usize,
    pub agent_context_matches: usize,
    pub compaction_metadata_matches: usize,
    pub unverifiable_compaction_metadata: usize,
    pub prefix_topology_matches: bool,
    pub arrival_error_ms: ArrivalError,
    pub arrival_timing_matches: bool,
    pub mismatches: Vec<String>,
    pub warnings: Vec<String>,
    pub passed: bool,
}

/// Why traces cannot be compared.
#[derive(Debug, Clone, Copy, PartialEq, Eq, Structural)]
pub enum CompareError {
    TimeScale,
    ArrivalP99Limit,
    ArrivalMaxLimit,
    NoReplayIds,
}

impl CompareError {
    /// The words of the error.
    pub open spec fn text(self) -> Seq<char> {
        match self {
            CompareError::TimeScale => "time_scale must be a positive finite number"@,
            CompareError::ArrivalP99Limit => "max_arrival_p99_ms must be a non-negative finite number"@,
            CompareError::ArrivalMaxLimit => "max_arrival_max_ms must be a non-negative finite number"@,
            CompareError::NoReplayIds => "the replay trace has no x_request_id values for result mapping"@,
        }
    }

    /// Puts the error in words.
    pub fn message(&self) -> (text: String)
        ensures
            text@ == self.text(),
    {
        match self {
            CompareError::TimeScale => "time_scale must be a positive finite number".to_string(),
            CompareError::ArrivalP99Limit =>
                "max_arrival_p99_ms must be a non-negative finite number".to_string(),
            CompareError::ArrivalMaxLimit =>
                "max_arrival_max_ms must be a non-negative finite number".to_string(),
            CompareError::NoReplayIds =>
                "the replay trace has no x_request_id values for result mapping".to_string(),
        }
    }
}

/// What is wrong with the options.
pub open spec fn options_failure(options: CompareOptions) -> Option<CompareError> {
    if !options.time_scale.positive() {
        Some(CompareError::TimeScale)
    } else if !options.max_arrival_p99_ms.not_negative() {
        Some(CompareError::ArrivalP99Limit)
    } else if !options.max_arrival_max_ms.not_negative() {
        Some(CompareError::ArrivalMaxLimit)
    } else {
        None
    }
}

/// Checks the options.
pub fn validate_options(options: &CompareOptions) -> (result: Result<(), CompareError>)
    ensures
        match options_failure(*options) {
            Some(error) => result == Err::<(), CompareError>(error),
            None => result is Ok,
        },
{
    if !options.time_scale.is_positive() {
        return Err(CompareError::TimeScale);
    }
    if !options.max_arrival_p99_ms.is_not_negative() {
        return Err(CompareError::ArrivalP99Limit);
    }
    if !options.max_arrival_max_ms.is_not_negative() {
        return Err(CompareError::ArrivalMaxLimit);
    }
    Ok(())
}

// ---------------------------------------------------------------------------------------------
// Pairing
// ---------------------------------------------------------------------------------------------

/// How many differences a report lists at most.
pub const MAX_MISMATCHES: usize = 100;

/// A list with one more difference, unless it is full.
pub open spec fn noted(list: Seq<Seq<char>>, text: Seq<char>) -> Seq<Seq<char>> {
    if list.len() < MAX_MISMATCHES {
        list.push(text)
    } else {
        list
    }
}

/// Lists a difference, unless the list is full.
pub fn add_mismatch(mismatches: &mut Vec<String>, mismatch: String)
    ensures
        texts(final(mismatches)@) == noted(texts(old(mismatches)@), mismatch@),
{
    let ghost before = mismatches@;
    if mismatches.len() < MAX_MISMATCHES {
        mismatches.push(mismatch);
        assert(texts(mismatches@) =~= texts(before).push(mismatch@));
    }
}

/// The last of the first `n` requests with the given identifier.
pub open spec fn by_id(requests: Seq<TraceRequest>, n: nat, id: Seq<char>) -> Option<int>
    decreases n,
{
    if n == 0 {
        None
    } else if requests[n - 1].source_request_id@ == id {
        Some(n - 1)
    } else {
        by_id(requests, (n - 1) as nat, id)
    }
}

/// The last of the first `n` requests with the given correlation identifier.
pub open spec fn by_x_id(requests: Seq<TraceRequest>, n: nat, id: Seq<char>) -> Option<int>
    decreases n,
{
    if n == 0 {
        None
    } else if optional_text(requests[n - 1].source_x_request_id) == Some(id) {
        Some(n - 1)
    } else {
        by_x_id(requests, (n - 1) as nat, id)
    }
}

/// A request that can be found by its correlation identifier.
pub open spec fn has_x_ids(requests: Seq<TraceRequest>) -> bool {
    exists|i: int| 0 <= i < requests.len() && (#[trigger] requests[i]).source_x_request_id is Some
}

/// The pairs that mappings give, and what they miss.
#[verifier::ext_equal]
pub struct Pairing {
    pub pairs: Seq<(int, int)>,
    pub missing_source: nat,
    pub missing_replay: nat,
    pub mismatches: Seq<Seq<char>>,
}

/// What the first `n` mappings give.
pub open spec fn paired(
    source: Seq<TraceRequest>,
    replay: Seq<TraceRequest>,
    mappings: Seq<RequestMapping>,
    n: nat,
) -> Pairing
    decreases n,
{
    if n == 0 {
        Pairing { pairs: Seq::empty(), missing_source: 0, missing_replay: 0, mismatches: Seq::empty() }
    } else {
        let before = paired(source, replay, mappings, (n - 1) as nat);
        let mapping = mappings[n - 1];
        match by_id(source, source.len(), mapping.source_request_id@) {
            None => Pairing {
                missing_source: before.missing_source + 1,
                mismatches: noted(
                    before.mismatches,
                    "missing source request "@ + mapping.source_request_id@,
                ),
                ..before
            },
            Some(s) => match by_x_id(replay, replay.len(), mapping.replay_request_id@) {
                None => Pairing {
                    missing_replay: before.missing_replay + 1,
                    mismatches: noted(
                        before.mismatches,
                        "missing replay request "@ + mapping.replay_request_id@,
                    ),
                    ..before
                },
                Some(r) => Pairing { pairs: before.pairs.push((s, r)), ..before },
            },
        }
    }
}

struct PairItem {
    ordinal: usize,
    position: usize,
    source: usize,
    replay: usize,
}

impl Ranked for PairItem {
    closed spec fn ranks_before(self, other: Self) -> bool {
        self.ordinal < other.ordinal || (self.ordinal == other.ordinal && self.position <= other.position)
    }

    proof fn rank_total(a: Self, b: Self) {
    }

    proof fn rank_transitive(a: Self, b: Self, c: Self) {
    }

    fn precedes(&self, other: &Self) -> (result: bool) {
        self.ordinal < other.ordinal || (self.ordinal == other.ordinal && self.position <= other.position)
    }
}

/// `order` lists the positions of `pairs`, each one once, by the ordinals of the source requests
/// and then by position.
pub open spec fn orders(order: Seq<int>, pairs: Seq<(int, int)>, source: Seq<TraceRequest>) -> bool {
    &&& order.len() == pairs.len()
    &&& order.no_duplicates()
    &&& forall|i: int| 0 <= i < order.len() ==> 0 <= #[trigger] order[i] < pairs.len()
    &&& forall|i: int, j: int|
        0 <= i < j < order.len() ==> ({
            let a = source[pairs[#[trigger] order[i]].0].ordinal;
            let b = source[pairs[#[trigger] order[j]].0].ordinal;
            a < b || (a == b && order[i] < order[j])
        })
}

proof fn lemma_by_id(requests: Seq<TraceRequest>, n: nat, id: Seq<char>)
    requires
        n <= requests.len(),
    ensures
        by_id(requests, n, id) matches Some(i) ==> 0 <= i < n,
        by_x_id(requests, n, id) matches Some(i) ==> 0 <= i < n,
    decreases n,
{
    if n > 0 {
        lemma_by_id(requests, (n - 1) as nat, id);
    }
}

spec fn item_pairs(items: Seq<PairItem>) -> Seq<(int, int)> {
    Seq::new(items.len(), |i: int| (items[i].source as int, items[i].replay as int))
}

spec fn items_fit(items: Seq<PairItem>, source: Seq<TraceRequest>, replay: Seq<TraceRequest>) -> bool {
    forall|i: int|
        0 <= i < items.len() ==> {
            &&& (#[trigger] items[i]).position == i
            &&& items[i].source < source.len()
            &&& items[i].replay < replay.len()
            &&& items[i].ordinal == source[items[i].source as int].ordinal
        }
}

/// The source and replay positions of the paired requests, in order, and what the mappings miss.
pub struct Matched {
    pub pairs: Vec<(usize, usize)>,
    pub missing_source_requests: usize,
    pub missing_replay_requests: usize,
    pub mismatches: Vec<String>,
}

/// The pairs of `matched`.
pub open spec fn pair_positions(pairs: Seq<(usize, usize)>) -> Seq<(int, int)> {
    Seq::new(pairs.len(), |i: int| (pairs[i].0 as int, pairs[i].1 as int))
}

/// `pairs` lists the pairs in the order of the source.
pub open spec fn in_source_order(pairs: Seq<(int, int)>, found: Seq<(int, int)>, source: Seq<TraceRequest>) -> bool {
    exists|order: Seq<int>| #[trigger]
        orders(order, found, source) && pairs == Seq::new(order.len(), |i: int| found[order[i]])
}

/// `matched` holds what the mappings give.
pub open spec fn is_matched(
    matched: Matched,
    source: Seq<TraceRequest>,
    replay: Seq<TraceRequest>,
    mappings: Seq<RequestMapping>,
) -> bool {
    let found = paired(source, replay, mappings, mappings.len());
    &&& in_source_order(pair_positions(matched.pairs@), found.pairs, source)
    &&& matched.missing_source_requests == found.missing_source
    &&& matched.missing_replay_requests == found.missing_replay
    &&& texts(matched.mismatches@) == found.mismatches
    &&& forall|i: int|
        0 <= i < matched.pairs@.len() ==> (#[trigger] matched.pairs@[i]).0 < source.len() && matched.pairs@[i].1
            < replay.len()
}

/// Finds the replayed request of each source request.
pub fn match_requests(
    source: &Vec<TraceRequest>,
    replay: &Vec<TraceRequest>,
    mappings: &Vec<RequestMapping>,
) -> (result: Result<Matched, CompareError>)
    ensures
        match result {
            Ok(matched) => has_x_ids(replay@) && is_matched(matched, source@, replay@, mappings@),
            Err(error) => !has_x_ids(replay@) && error == CompareError::NoReplayIds,
        },
{
    let mut source_ids: StringHashMap<usize> = StringHashMap::with_capacity(source.len());
    let mut i: usize = 0;
    while i < source.len()
        invariant
            i <= source@.len(),
            forall|id: Seq<char>| #[trigger]
                source_ids@.contains_key(id) <==> by_id(source@, i as nat, id) is Some,
            forall|id: Seq<char>| #[trigger]
                source_ids@.contains_key(id) ==> by_id(source@, i as nat, id) == Some(source_ids@[id] as int),
        decreases source@.len() - i,
    {
        source_ids.insert(source[i].source_request_id.clone(), i);
        i += 1;
    }
    let mut replay_ids: StringHashMap<usize> = StringHashMap::new();
    let mut any = false;
    let mut j: usize = 0;
    while j < replay.len()
        invariant
            j <= replay@.len(),
            any <==> exists|k: int| 0 <= k < j && (#[trigger] replay@[k]).source_x_request_id is Some,
            forall|id: Seq<char>| #[trigger]
                replay_ids@.contains_key(id) <==> by_x_id(replay@, j as nat, id) is Some,
            forall|id: Seq<char>| #[trigger]
                replay_ids@.contains_key(id) ==> by_x_id(replay@, j as nat, id) == Some(replay_ids@[id] as int),
        decreases replay@.len() - j,
    {
        if let Some(id) = &replay[j].source_x_request_id {
            replay_ids.insert(id.clone(), j);
            any = true;
            assert(replay@[j as int].source_x_request_id is Some);
        }
        j += 1;
    }
    if !any {
        return Err(CompareError::NoReplayIds);
    }
    let mut items: Vec<PairItem> = Vec::new();
    let mut missing_source_requests: usize = 0;
    let mut missing_replay_requests: usize = 0;
    let mut mismatches: Vec<String> = Vec::new();
    let mut m: usize = 0;
    assert(item_pairs(items@) =~= Seq::<(int, int)>::empty());
    assert(texts(mismatches@) =~= Seq::<Seq<char>>::empty());
    while m < mappings.len()
        invariant
            m <= mappings@.len(),
            forall|id: Seq<char>| #[trigger]
                source_ids@.contains_key(id) <==> by_id(source@, source@.len(), id) is Some,
            forall|id: Seq<char>| #[trigger]
                source_ids@.contains_key(id) ==> by_id(source@, source@.len(), id) == Some(source_ids@[id] as int),
            forall|id: Seq<char>| #[trigger]
                replay_ids@.contains_key(id) <==> by_x_id(replay@, replay@.len(), id) is Some,
            forall|id: Seq<char>| #[trigger]
                replay_ids@.contains_key(id) ==> by_x_id(replay@, replay@.len(), id) == Some(replay_ids@[id] as int),
            items_fit(items@, source@, replay@),
            items@.len() <= m,
            missing_source_requests <= m,
            missing_replay_requests <= m,
            paired(source@, replay@, mappings@, m as nat) == (Pairing {
                pairs: item_pairs(items@),
                missing_source: missing_source_requests as nat,
                missing_replay: missing_replay_requests as nat,
                mismatches: texts(mismatches@),
            }),
        decreases mappings@.len() - m,
    {
        let mapping = &mappings[m];
        proof {
            lemma_by_id(source@, source@.len(), mapping.source_request_id@);
            lemma_by_id(replay@, replay@.len(), mapping.replay_request_id@);
        }
        match source_ids.get(mapping.source_request_id.as_str()) {
            None => {
                missing_source_requests += 1;
                let mut text = "missing source request ".to_string();
                text.append(mapping.source_request_id.as_str());
                add_mismatch(&mut mismatches, text);
            },
            Some(s) => match replay_ids.get(mapping.replay_request_id.as_str()) {
                None => {
                    missing_replay_requests += 1;
                    let mut text = "missing replay request ".to_string();
                    text.append(mapping.replay_request_id.as_str());
                    add_mismatch(&mut mismatches, text);
                },
                Some(r) => {
                    let ghost before = items@;
                    let position = items.len();
                    items.push(
                        PairItem { ordinal: source[*s].ordinal, position, source: *s, replay: *r },
                    );
                    assert(item_pairs(items@) =~= item_pairs(before).push((*s as int, *r as int)));
                },
            },
        }
        m += 1;
    }
    let ghost listed = items@;
    let sorted = sort(items);
    let mut pairs: Vec<(usize, usize)> = Vec::with_capacity(sorted.len());
    proof {
        lemma_sorted_items(listed, sorted@);
    }
    let mut k: usize = 0;
    while k < sorted.len()
        invariant
            k <= sorted@.len(),
            pairs@.len() == k,
            forall|x: int|
                0 <= x < k ==> #[trigger] pairs@[x] == (sorted@[x].source, sorted@[x].replay),
        decreases sorted@.len() - k,
    {
        pairs.push((sorted[k].source, sorted[k].replay));
        k += 1;
    }
    proof {
        lemma_order_from_items(listed, sorted@, source@, replay@);
        let order = Seq::new(sorted@.len(), |x: int| sorted@[x].position as int);
        let found = item_pairs(listed);
        assert(pair_positions(pairs@) =~= Seq::new(order.len(), |x: int| found[order[x]])) by {
            assert forall|x: int| 0 <= x < pairs@.len() implies (pairs@[x].0 as int, pairs@[x].1 as int)
                == found[order[x]] by {
                assert(pairs@[x] == (sorted@[x].source, sorted@[x].replay));
                assert(listed[sorted@[x].position as int] == sorted@[x]);
            }
        }
        assert(orders(order, found, source@));
        assert forall|x: int| 0 <= x < pairs@.len() implies (#[trigger] pairs@[x]).0 < source@.len()
            && pairs@[x].1 < replay@.len() by {
            assert(pairs@[x] == (sorted@[x].source, sorted@[x].replay));
            assert(listed[sorted@[x].position as int] == sorted@[x]);
        }
    }
    Ok(Matched { pairs, missing_source_requests, missing_replay_requests, mismatches })
}

proof fn lemma_sorted_items(listed: Seq<PairItem>, sorted: Seq<PairItem>)
    requires
        sorted.to_multiset() == listed.to_multiset(),
    ensures
        forall|x: int| 0 <= x < sorted.len() ==> listed.contains(#[trigger] sorted[x]),
{
    sorted.to_multiset_ensures();
    listed.to_multiset_ensures();
    assert forall|x: int| 0 <= x < sorted.len() implies listed.contains(#[trigger] sorted[x]) by {
        assert(sorted.contains(sorted[x]));
        assert(sorted.to_multiset().count(sorted[x]) > 0);
        assert(listed.to_multiset().count(sorted[x]) > 0);
    }
}

proof fn lemma_order_from_items(
    listed: Seq<PairItem>,
    sorted: Seq<PairItem>,
    source: Seq<TraceRequest>,
    replay: Seq<TraceRequest>,
)
    requires
        is_sorted(sorted),
        sorted.to_multiset() == listed.to_multiset(),
        sorted.len() == listed.len(),
        items_fit(listed, source, replay),
    ensures
        orders(
            Seq::new(sorted.len(), |x: int| sorted[x].position as int),
            item_pairs(listed),
            source,
        ),
        forall|x: int| 0 <= x < sorted.len() ==> (#[trigger] sorted[x]).position < listed.len()
            && listed[sorted[x].position as int] == sorted[x],
{
    lemma_sorted_items(listed, sorted);
    assert forall|x: int| 0 <= x < sorted.len() implies (#[trigger] sorted[x]).position < listed.len()
        && listed[sorted[x].position as int] == sorted[x] by {
        let p = listed.index_of(sorted[x]);
        assert(listed[p].position == p);
    }
    let order = Seq::new(sorted.len(), |x: int| sorted[x].position as int);
    assert(listed.no_duplicates()) by {
        assert forall|a: int, b: int| 0 <= a < listed.len() && 0 <= b < listed.len() && a != b implies listed[a]
            != listed[b] by {
            assert(listed[a].position == a && listed[b].position == b);
        }
    }
    listed.lemma_multiset_has_no_duplicates();
    sorted.lemma_multiset_has_no_duplicates_conv();
    assert forall|a: int, b: int| 0 <= a < order.len() && 0 <= b < order.len() && a != b implies order[a]
        != order[b] by {
        assert(sorted[a] != sorted[b]);
        assert(listed[sorted[a].position as int] == sorted[a]);
        assert(listed[sorted[b].position as int] == sorted[b]);
    }
    let found = item_pairs(listed);
    assert forall|i: int, j: int| 0 <= i < j < order.len() implies ({
        let a = source[found[#[trigger] order[i]].0].ordinal;
        let b = source[found[#[trigger] order[j]].0].ordinal;
        a < b || (a == b && order[i] < order[j])
    }) by {
        assert(sorted[i].ranks_before(sorted[j]));
        assert(order[i] != order[j]);
        assert(listed[sorted[i].position as int] == sorted[i]);
        assert(listed[sorted[j].position as int] == sorted[j]);
    }
}

// ---------------------------------------------------------------------------------------------
// Prefix topology
// ---------------------------------------------------------------------------------------------

/// Hashes renamed in order of first occurrence: the names so far, and the renamed list.
pub open spec fn canonical(hashes: Seq<u64>, n: nat) -> (Map<u64, u64>, Seq<u64>)
    decreases n,
{
    if n == 0 {
        (Map::empty(), Seq::empty())
    } else {
        let (names, list) = canonical(hashes, (n - 1) as nat);
        let hash = hashes[n - 1];
        if names.contains_key(hash) {
            (names, list.push(names[hash]))
        } else {
            (names.insert(hash, names.len() as u64), list.push(names.len() as u64))
        }
    }
}

/// The hashes of all requests in one list.
pub open spec fn all_hashes(requests: Seq<TraceRequest>, n: nat) -> Seq<u64>
    decreases n,
{
    if n == 0 {
        Seq::empty()
    } else {
        all_hashes(requests, (n - 1) as nat) + requests[n - 1].input_sequence_hashes@
    }
}

/// Two lists that are equal at the same places: the shape of one is the shape of the other.
pub open spec fn same_shape(a: Seq<u64>, b: Seq<u64>) -> bool {
    &&& a.len() == b.len()
    &&& forall|i: int, j: int|
        0 <= i < a.len() && 0 <= j < a.len() ==> (#[trigger] a[i] == #[trigger] a[j] <==> b[i] == b[j])
}

/// Where each request has as many hashes as its partner.
pub open spec fn same_lengths(a: Seq<TraceRequest>, b: Seq<TraceRequest>) -> bool {
    &&& a.len() == b.len()
    &&& forall|i: int|
        0 <= i < a.len() ==> (#[trigger] a[i]).input_sequence_hashes@.len() == b[i].input_sequence_hashes@.len()
}

spec fn names_fit(names: Map<u64, u64>, list: Seq<u64>, hashes: Seq<u64>, n: nat) -> bool {
    &&& list.len() == n
    &&& names.dom().finite()
    &&& names.len() <= n
    &&& forall|i: int| 0 <= i < n ==> names.contains_key(#[trigger] hashes[i]) && names[hashes[i]] == list[i]
    &&& forall|h: u64| #[trigger] names.contains_key(h) ==> names[h] < names.len()
    &&& forall|h: u64| #[trigger]
        names.contains_key(h) ==> exists|i: int| 0 <= i < n && #[trigger] hashes[i] == h
    &&& forall|g: u64, h: u64| #[trigger]
        names.contains_key(g) && #[trigger] names.contains_key(h) && g != h ==> names[g] != names[h]
}

proof fn lemma_word_set_size(words: Set<u64>)
    requires
        words.finite(),
    ensures
        words.len() <= 0x1_0000_0000_0000_0000,
{
    let f = |word: u64| word as int;
    let image = words.map(f);
    vstd::set_lib::lemma_map_size(words, image, f);
    vstd::set_lib::lemma_int_range(0, 0x1_0000_0000_0000_0000);
    vstd::set_lib::lemma_len_subset(image, vstd::set_lib::set_int_range(0, 0x1_0000_0000_0000_0000));
}

proof fn lemma_canonical(hashes: Seq<u64>, n: nat)
    requires
        n <= hashes.len(),
    ensures
        names_fit(canonical(hashes, n).0, canonical(hashes, n).1, hashes, n),
    decreases n,
{
    if n > 0 {
        lemma_canonical(hashes, (n - 1) as nat);
        let (before, old_list) = canonical(hashes, (n - 1) as nat);
        let (names, list) = canonical(hashes, n);
        let hash = hashes[n - 1];
        if !before.contains_key(hash) {
            lemma_word_set_size(names.dom());
            assert(names.len() == before.len() + 1);
        }
        assert forall|i: int| 0 <= i < n implies names.contains_key(#[trigger] hashes[i]) && names[hashes[i]]
            == list[i] by {
            if i < n - 1 {
                assert(old_list[i] == list[i]);
                assert(before.contains_key(hashes[i]));
            }
        }
        assert forall|h: u64| #[trigger] names.contains_key(h) implies names[h] < names.len() by {
            if before.contains_key(h) {
                assert(before[h] < before.len());
            }
        }
        assert forall|h: u64| #[trigger] names.contains_key(h) implies exists|i: int|
            0 <= i < n && #[trigger] hashes[i] == h by {
            if before.contains_key(h) {
                let i = choose|i: int| 0 <= i < n - 1 && #[trigger] hashes[i] == h;
                assert(hashes[i] == h);
            } else {
                assert(hashes[n - 1] == h);
            }
        }
        assert forall|g: u64, h: u64| #[trigger]
            names.contains_key(g) && #[trigger] names.contains_key(h) && g != h implies names[g] != names[h] by {
            if before.contains_key(g) {
                assert(before[g] < before.len());
            }
            if before.contains_key(h) {
                assert(before[h] < before.len());
            }
        }
    } else {
        assert(canonical(hashes, 0).0.len() == 0);
    }
}

proof fn lemma_canonical_prefix(hashes: Seq<u64>, n: nat, m: nat)
    requires
        n <= m,
    ensures
        canonical(hashes, n).1.is_prefix_of(canonical(hashes, m).1),
        canonical(hashes, n).1.len() == n,
    decreases m,
{
    if m > 0 {
        if n < m {
            lemma_canonical_prefix(hashes, n, (m - 1) as nat);
            lemma_canonical_prefix(hashes, (m - 1) as nat, (m - 1) as nat);
        } else {
            lemma_canonical_prefix(hashes, (n - 1) as nat, (n - 1) as nat);
        }
    }
}

/// Renaming in order of first occurrence tells shapes apart: two lists are renamed alike exactly
/// where they are equal at the same places, whatever their hashes are.
pub proof fn law_canonical_labels_show_the_shape(a: Seq<u64>, b: Seq<u64>)
    ensures
        canonical(a, a.len()).1 == canonical(b, b.len()).1 <==> same_shape(a, b),
{
    lemma_canonical(a, a.len());
    lemma_canonical(b, b.len());
    let la = canonical(a, a.len()).1;
    let lb = canonical(b, b.len()).1;
    if la == lb {
        assert forall|i: int, j: int| 0 <= i < a.len() && 0 <= j < a.len() implies (#[trigger] a[i]
            == #[trigger] a[j] <==> b[i] == b[j]) by {
            assert(la[i] == lb[i] && la[j] == lb[j]);
        }
    }
    if same_shape(a, b) {
        lemma_same_shape_canonical(a, b, a.len());
        assert(la =~= lb);
    }
}

proof fn lemma_same_shape_canonical(a: Seq<u64>, b: Seq<u64>, n: nat)
    requires
        same_shape(a, b),
        n <= a.len(),
    ensures
        canonical(a, n).1 == canonical(b, n).1,
        canonical(a, n).0.len() == canonical(b, n).0.len(),
    decreases n,
{
    if n > 0 {
        let m = (n - 1) as nat;
        lemma_same_shape_canonical(a, b, m);
        lemma_canonical(a, m);
        lemma_canonical(b, m);
        let (na, la) = canonical(a, m);
        let (nb, lb) = canonical(b, m);
        if na.contains_key(a[n - 1]) {
            let i = choose|i: int| 0 <= i < m && #[trigger] a[i] == a[n - 1];
            assert(b[i] == b[n - 1]);
            assert(nb.contains_key(b[i]));
            assert(la[i] == lb[i]);
        } else if nb.contains_key(b[n - 1]) {
            let i = choose|i: int| 0 <= i < m && #[trigger] b[i] == b[n - 1];
            assert(a[i] == a[n - 1]);
            assert(na.contains_key(a[i]));
        }
    }
}

/// One side of the pairs.
pub open spec fn side(pairs: Seq<(&TraceRequest, &TraceRequest)>, use_source: bool) -> Seq<TraceRequest> {
    Seq::new(
        pairs.len(),
        |i: int|
            if use_source {
                *pairs[i].0
            } else {
                *pairs[i].1
            },
    )
}

/// The renamed hashes of request `i`.
pub open spec fn canonical_slice(requests: Seq<TraceRequest>, i: int) -> Seq<u64> {
    let hashes = all_hashes(requests, requests.len());
    let start = all_hashes(requests, i as nat).len() as int;
    canonical(hashes, hashes.len()).1.subrange(start, start + requests[i].input_sequence_hashes@.len())
}

proof fn lemma_all_hashes_split(requests: Seq<TraceRequest>, n: nat, m: nat)
    requires
        n <= m,
    ensures
        all_hashes(requests, n).is_prefix_of(all_hashes(requests, m)),
    decreases m,
{
    if n < m {
        lemma_all_hashes_split(requests, n, (m - 1) as nat);
    }
}

/// Renames the hashes of one side of the pairs in order of first occurrence.
pub fn canonical_prefix_sequences(
    pairs: &Vec<(&TraceRequest, &TraceRequest)>,
    use_source: bool,
) -> (result: Vec<Vec<u64>>)
    ensures
        result@.len() == pairs@.len(),
        forall|i: int|
            0 <= i < result@.len() ==> (#[trigger] result@[i])@ == canonical_slice(side(pairs@, use_source), i),
{
    let ghost requests = side(pairs@, use_source);
    let ghost hashes = all_hashes(requests, requests.len());
    let ghost total = hashes.len();
    let mut names: HashMap<u64, u64> = HashMap::new();
    let mut count: u128 = 0;
    let mut result: Vec<Vec<u64>> = Vec::with_capacity(pairs.len());
    let ghost mut done: nat = 0;
    let mut i: usize = 0;
    while i < pairs.len()
        invariant
            i <= pairs@.len(),
            requests == side(pairs@, use_source),
            hashes == all_hashes(requests, requests.len()),
            total == hashes.len(),
            done == all_hashes(requests, i as nat).len(),
            done <= total,
            names@ == canonical(hashes, done).0,
            count == names@.len(),
            result@.len() == i,
            forall|k: int| 0 <= k < i ==> (#[trigger] result@[k])@ == canonical_slice(requests, k),
        decreases pairs@.len() - i,
    {
        let request: &TraceRequest = if use_source {
            pairs[i].0
        } else {
            pairs[i].1
        };
        assert(*request == requests[i as int]);
        let list = &request.input_sequence_hashes;
        let mut renamed: Vec<u64> = Vec::with_capacity(list.len());
        let ghost start = done;
        proof {
            lemma_all_hashes_split(requests, i as nat + 1, requests.len());
            lemma_all_hashes_split(requests, i as nat, requests.len());
            lemma_canonical(hashes, done);
            let upto = all_hashes(requests, i as nat + 1);
            assert forall|x: int| 0 <= x < list@.len() implies #[trigger] list@[x] == hashes[start + x] by {
                assert(upto[start + x] == list@[x]);
                assert(hashes.subrange(0, upto.len() as int)[start + x] == hashes[start + x]);
            }
        }
        let mut k: usize = 0;
        while k < list.len()
            invariant
                k <= list@.len(),
                i < pairs@.len(),
                requests == side(pairs@, use_source),
                hashes == all_hashes(requests, requests.len()),
                total == hashes.len(),
                    list@ == requests[i as int].input_sequence_hashes@,
                start == all_hashes(requests, i as nat).len(),
                start + list@.len() <= total,
                forall|x: int| 0 <= x < list@.len() ==> #[trigger] list@[x] == hashes[start + x],
                done == start + k,
                names@ == canonical(hashes, done).0,
                count == names@.len(),
                renamed@.len() == k,
                canonical(hashes, done).1.len() == done,
                forall|x: int| 0 <= x < k ==> #[trigger] renamed@[x] == canonical(hashes, done).1[start + x],
            decreases list@.len() - k,
        {
            let hash = list[k];
            let ghost old_list = canonical(hashes, done).1;
            proof {
                lemma_canonical(hashes, done);
                assert(hashes[done as int] == hash);
            }
            let label = match names.get(&hash) {
                Some(label) => *label,
                None => {
                    proof {
                        lemma_word_set_size(names@.dom().insert(hash));
                    }
                    let label = count as u64;
                    names.insert(hash, label);
                    count = count + 1;
                    label
                },
            };
            renamed.push(label);
            proof {
                done = done + 1;
                let new_list = canonical(hashes, done).1;
                assert(new_list == old_list.push(label));
                assert forall|x: int| 0 <= x < k + 1 implies #[trigger] renamed@[x] == new_list[start + x] by {
                    if x < k {
                        assert(old_list[start + x] == new_list[start + x]);
                    }
                }
            }
            k += 1;
        }
        proof {
            lemma_canonical_prefix(hashes, done, total);
            let whole = canonical(hashes, total).1;
            assert(renamed@ =~= whole.subrange(start as int, (start + list@.len()) as int));
        }
        result.push(renamed);
        i += 1;
    }
    result
}

fn same_lists(a: &Vec<Vec<u64>>, b: &Vec<Vec<u64>>) -> (same: bool)
    ensures
        same == (a@.len() == b@.len() && forall|i: int| 0 <= i < a@.len() ==> (#[trigger] a@[i])@ == b@[i]@),
{
    if a.len() != b.len() {
        return false;
    }
    let mut i: usize = 0;
    while i < a.len()
        invariant
            i <= a@.len(),
            a@.len() == b@.len(),
            forall|k: int| 0 <= k < i ==> (#[trigger] a@[k])@ == b@[k]@,
        decreases a@.len() - i,
    {
        let left = &a[i];
        let right = &b[i];
        if left.len() != right.len() {
            assert(a@[i as int]@ != b@[i as int]@);
            return false;
        }
        let mut k: usize = 0;
        while k < left.len()
            invariant
                k <= left@.len(),
                left@.len() == right@.len(),
                i < a@.len(),
                a@.len() == b@.len(),
                left == a@[i as int],
                right == b@[i as int],
                forall|x: int| 0 <= x < k ==> left@[x] == right@[x],
            decreases left@.len() - k,
        {
            if left[k] != right[k] {
                assert(a@[i as int]@ != b@[i as int]@);
                return false;
            }
            k += 1;
        }
        assert(left@ =~= right@);
        i += 1;
    }
    true
}

// ---------------------------------------------------------------------------------------------
// Field by field
// ---------------------------------------------------------------------------------------------

/// The same session, lineage, finality and trigger; opaque compaction metadata aside.
pub open spec fn core_matches(source: Option<AgentContextView>, replay: Option<AgentContextView>) -> bool {
    match (source, replay) {
        (None, None) => true,
        (Some(a), Some(b)) => a.session_id == b.session_id && a.parent_session_id == b.parent_session_id
            && a.session_final == b.session_final && a.input_trigger == b.input_trigger,
        _ => false,
    }
}

/// Compares two agent contexts, opaque compaction metadata aside.
pub fn agent_context_core_matches(source: &Option<AgentContext>, replay: &Option<AgentContext>) -> (same: bool)
    ensures
        same == core_matches(context_view(*source), context_view(*replay)),
{
    match (source, replay) {
        (None, None) => true,
        (Some(a), Some(b)) => {
            let final_same = match (a.session_final, b.session_final) {
                (Some(x), Some(y)) => x == y,
                (None, None) => true,
                _ => false,
            };
            a.session_id == b.session_id && same_optional(&a.parent_session_id, &b.parent_session_id)
                && final_same && same_optional(&a.input_trigger, &b.input_trigger)
        },
        _ => false,
    }
}

/// The view of an optional context.
pub open spec fn context_view(context: Option<AgentContext>) -> Option<AgentContextView> {
    match context {
        Some(context) => Some(context@),
        None => None,
    }
}

/// The compaction metadata of an optional context.
pub open spec fn metadata_of(context: Option<AgentContextView>) -> Option<Seq<char>> {
    match context {
        Some(context) => context.compaction,
        None => None,
    }
}

/// The value that compaction metadata stand for: JSON text, or else a string.
pub open spec fn metadata_value(text: Seq<char>) -> JsonView {
    match json_value(encode_utf8(text)) {
        Some(value) => value,
        None => JsonView::Text(text),
    }
}

/// Compaction metadata are the same: both are missing, or they stand for the same value.
pub open spec fn same_metadata(source: Option<Seq<char>>, replay: Option<Seq<char>>) -> bool {
    match (source, replay) {
        (Some(a), Some(b)) => same_json(metadata_value(a), metadata_value(b)),
        (None, None) => true,
        _ => false,
    }
}

fn read_metadata(text: &str) -> (value: serde_json::Value)
    ensures
        value_view(value) == metadata_value(text@),
{
    match read_json(text.as_bytes()) {
        Ok(value) => value,
        Err(_) => string_value(text),
    }
}

fn compare_metadata(source: &Option<AgentContext>, replay: &Option<AgentContext>) -> (same: bool)
    ensures
        same == same_metadata(metadata_of(context_view(*source)), metadata_of(context_view(*replay))),
{
    let source = match source {
        Some(context) => context.compaction.as_ref(),
        None => None,
    };
    let replay = match replay {
        Some(context) => context.compaction.as_ref(),
        None => None,
    };
    match (source, replay) {
        (Some(a), Some(b)) => same_values(&read_metadata(a.as_str()), &read_metadata(b.as_str())),
        (None, None) => true,
        _ => false,
    }
}

/// An optional text as reports show it.
pub open spec fn shown_text(value: Option<Seq<char>>) -> Seq<char> {
    match value {
        Some(text) => "Some("@ + quoted(text) + ")"@,
        None => "None"@,
    }
}

/// An optional truth value as reports show it.
pub open spec fn shown_flag(value: Option<bool>) -> Seq<char> {
    match value {
        Some(true) => "Some(true)"@,
        Some(false) => "Some(false)"@,
        None => "None"@,
    }
}

/// Compaction metadata as reports show them.
pub open spec fn shown_metadata(value: Option<Seq<char>>) -> Seq<char> {
    match value {
        Some(text) => "Some("@ + debugged(metadata_value(text)) + ")"@,
        None => "None"@,
    }
}

/// A context as reports show it.
pub open spec fn shown_context(value: Option<AgentContextView>) -> Seq<char> {
    match value {
        Some(context) => "Some(AgentContext { session_id: "@ + quoted(context.session_id)
            + ", parent_session_id: "@ + shown_text(context.parent_session_id) + ", session_final: "@ + shown_flag(
            context.session_final,
        ) + ", compaction: "@ + shown_metadata(context.compaction) + ", input_trigger: "@ + shown_text(
            context.input_trigger,
        ) + " })"@,
        None => "None"@,
    }
}

fn show_text(value: &Option<String>) -> (text: String)
    ensures
        text@ == shown_text(optional_text(*value)),
{
    match value {
        Some(inner) => {
            let mut text = "Some(".to_string();
            text.append(debug_quoted(inner.as_str()).as_str());
            text.append(")");
            text
        },
        None => "None".to_string(),
    }
}

fn show_metadata(value: &Option<String>) -> (text: String)
    ensures
        text@ == shown_metadata(optional_text(*value)),
{
    match value {
        Some(inner) => {
            let mut text = "Some(".to_string();
            text.append(debug_value(&read_metadata(inner.as_str())).as_str());
            text.append(")");
            text
        },
        None => "None".to_string(),
    }
}

fn show_context(value: &Option<AgentContext>) -> (text: String)
    ensures
        text@ == shown_context(context_view(*value)),
{
    match value {
        Some(context) => {
            let mut text = "Some(AgentContext { session_id: ".to_string();
            text.append(debug_quoted(context.session_id.as_str()).as_str());
            text.append(", parent_session_id: ");
            text.append(show_text(&context.parent_session_id).as_str());
            text.append(", session_final: ");
            text.append(
                match context.session_final {
                    Some(flag) => if flag {
                        "Some(true)"
                    } else {
                        "Some(false)"
                    },
                    None => "None",
                },
            );
            text.append(", compaction: ");
            text.append(show_metadata(&context.compaction).as_str());
            text.append(", input_trigger: ");
            text.append(show_text(&context.input_trigger).as_str());
            text.append(" })");
            text
        },
        None => "None".to_string(),
    }
}

/// How a field of a pair differs, in words.
pub open spec fn field_text(id: Seq<char>, field: Seq<char>, source: Seq<char>, replay: Seq<char>) -> Seq<char> {
    "request "@ + id + " "@ + field + " mismatch: source="@ + source + ", replay="@ + replay
}

fn field_message(id: &str, field: &str, source: &str, replay: &str) -> (text: String)
    ensures
        text@ == field_text(id@, field@, source@, replay@),
{
    let mut text = "request ".to_string();
    text.append(id);
    text.append(" ");
    text.append(field);
    text.append(" mismatch: source=");
    text.append(source);
    text.append(", replay=");
    text.append(replay);
    text
}

/// Counts of equal fields, and the differences listed so far.
#[verifier::ext_equal]
pub struct Tally {
    pub block_size: nat,
    pub input_length: nat,
    pub output_length: nat,
    pub context: nat,
    pub metadata: nat,
    pub unverifiable: nat,
    pub mismatches: Seq<Seq<char>>,
    pub warnings: Seq<Seq<char>>,
}

/// Counts one field of a pair.
pub open spec fn field_counted(
    count: nat,
    mismatches: Seq<Seq<char>>,
    equal: bool,
    text: Seq<char>,
) -> (nat, Seq<Seq<char>>) {
    if equal {
        (count + 1, mismatches)
    } else {
        (count, noted(mismatches, text))
    }
}

/// Counts one pair.
pub open spec fn pair_counted(t: Tally, s: TraceRequestView, r: TraceRequestView) -> Tally {
    let id = s.source_request_id;
    let (block_size, m1) = field_counted(
        t.block_size,
        t.mismatches,
        s.trace_block_size == r.trace_block_size,
        field_text(id, "trace_block_size"@, decimal(s.trace_block_size as nat), decimal(r.trace_block_size as nat)),
    );
    let (input_length, m2) = field_counted(
        t.input_length,
        m1,
        s.input_tokens == r.input_tokens,
        field_text(id, "input_tokens"@, decimal(s.input_tokens as nat), decimal(r.input_tokens as nat)),
    );
    let (output_length, m3) = field_counted(
        t.output_length,
        m2,
        s.output_tokens == r.output_tokens,
        field_text(id, "output_tokens"@, decimal(s.output_tokens as nat), decimal(r.output_tokens as nat)),
    );
    let (context, m4) = field_counted(
        t.context,
        m3,
        core_matches(s.agent_context, r.agent_context),
        field_text(id, "agent_context"@, shown_context(s.agent_context), shown_context(r.agent_context)),
    );
    let known = same_metadata(metadata_of(s.agent_context), metadata_of(r.agent_context));
    Tally {
        block_size,
        input_length,
        output_length,
        context,
        metadata: if known {
            t.metadata + 1
        } else {
            t.metadata
        },
        unverifiable: if known {
            t.unverifiable
        } else {
            t.unverifiable + 1
        },
        mismatches: m4,
        warnings: if known {
            t.warnings
        } else {
            noted(
                t.warnings,
                "request "@ + id
                    + " opaque compaction metadata is not observable in the captured Dynamo agent context"@,
            )
        },
    }
}

/// Counts the first `n` pairs.
pub open spec fn tallied(
    source: Seq<TraceRequest>,
    replay: Seq<TraceRequest>,
    pairs: Seq<(usize, usize)>,
    mismatches: Seq<Seq<char>>,
    n: nat,
) -> Tally
    decreases n,
{
    if n == 0 {
        Tally {
            block_size: 0,
            input_length: 0,
            output_length: 0,
            context: 0,
            metadata: 0,
            unverifiable: 0,
            mismatches,
            warnings: Seq::empty(),
        }
    } else {
        let (s, r) = pairs[n - 1];
        pair_counted(
            tallied(source, replay, pairs, mismatches, (n - 1) as nat),
            source[s as int]@,
            replay[r as int]@,
        )
    }
}

struct Counts {
    block_size: usize,
    input_length: usize,
    output_length: usize,
    context: usize,
    metadata: usize,
    unverifiable: usize,
    mismatches: Vec<String>,
    warnings: Vec<String>,
}

impl Counts {
    spec fn tally(&self) -> Tally {
        Tally {
            block_size: self.block_size as nat,
            input_length: self.input_length as nat,
            output_length: self.output_length as nat,
            context: self.context as nat,
            metadata: self.metadata as nat,
            unverifiable: self.unverifiable as nat,
            mismatches: texts(self.mismatches@),
            warnings: texts(self.warnings@),
        }
    }

    spec fn below(&self, n: int) -> bool {
        &&& self.block_size <= n
        &&& self.input_length <= n
        &&& self.output_length <= n
        &&& self.context <= n
        &&& self.metadata <= n
        &&& self.unverifiable <= n
    }

    fn count_pair(&mut self, s: &TraceRequest, r: &TraceRequest)
        requires
            old(self).below(usize::MAX - 1),
        ensures
            final(self).tally() == pair_counted(old(self).tally(), s@, r@),
            forall|n: int| #[trigger] old(self).below(n) ==> final(self).below(n + 1),
    {
        let id = s.source_request_id.as_str();
        if s.trace_block_size == r.trace_block_size {
            self.block_size += 1;
        } else {
            let text = field_message(
                id,
                "trace_block_size",
                decimal_text(s.trace_block_size as u64).as_str(),
                decimal_text(r.trace_block_size as u64).as_str(),
            );
            add_mismatch(&mut self.mismatches, text);
        }
        if s.input_tokens == r.input_tokens {
            self.input_length += 1;
        } else {
            let text = field_message(
                id,
                "input_tokens",
                decimal_text(s.input_tokens as u64).as_str(),
                decimal_text(r.input_tokens as u64).as_str(),
            );
            add_mismatch(&mut self.mismatches, text);
        }
        if s.output_tokens == r.output_tokens {
            self.output_length += 1;
        } else {
            let text = field_message(
                id,
                "output_tokens",
                decimal_text(s.output_tokens as u64).as_str(),
                decimal_text(r.output_tokens as u64).as_str(),
            );
            add_mismatch(&mut self.mismatches, text);
        }
        if agent_context_core_matches(&s.agent_context, &r.agent_context) {
            self.context += 1;
        } else {
            let text = field_message(
                id,
                "agent_context",
                show_context(&s.agent_context).as_str(),
                show_context(&r.agent_context).as_str(),
            );
            add_mismatch(&mut self.mismatches, text);
        }
        if compare_metadata(&s.agent_context, &r.agent_context) {
            self.metadata += 1;
        } else {
            self.unverifiable += 1;
            let mut text = "request ".to_string();
            text.append(id);
            text.append(" opaque compaction metadata is not observable in the captured Dynamo agent context");
            add_mismatch(&mut self.warnings, text);
        }
    }
}

// ---------------------------------------------------------------------------------------------
// The report
// ---------------------------------------------------------------------------------------------

/// The bits of real numbers.
pub open spec fn bits_of(values: Seq<Real>) -> Seq<u64> {
    values.map_values(|value: Real| value.bits)
}

/// The paired source requests, or the paired replayed ones.
pub open spec fn paired_side(
    source: Seq<TraceRequest>,
    replay: Seq<TraceRequest>,
    pairs: Seq<(usize, usize)>,
    use_source: bool,
) -> Seq<TraceRequest> {
    Seq::new(
        pairs.len(),
        |i: int|
            if use_source {
                source[pairs[i].0 as int]
            } else {
                replay[pairs[i].1 as int]
            },
    )
}

/// The paired requests have hashes of one shape, request by request.
pub open spec fn same_topology(a: Seq<TraceRequest>, b: Seq<TraceRequest>) -> bool {
    same_lengths(a, b) && same_shape(all_hashes(a, a.len()), all_hashes(b, b.len()))
}

/// A limit, as bits; the sign of zero aside.
pub open spec fn limit_bits(limit: Real) -> u64 {
    if limit.bits == crate::double::SIGN_BITS {
        0
    } else {
        limit.bits
    }
}

/// `report` is the outcome for the pairs and arrival errors given.
pub open spec fn is_report(
    report: FidelityReport,
    source: Seq<TraceRequest>,
    replay: Seq<TraceRequest>,
    mappings: nat,
    matched: Matched,
    arrival: ArrivalMeasure,
    options: CompareOptions,
) -> bool {
    let pairs = matched.pairs@;
    let t = tallied(source, replay, pairs, texts(matched.mismatches@), pairs.len());
    let topology = same_topology(
        paired_side(source, replay, pairs, true),
        paired_side(source, replay, pairs, false),
    );
    let timing = report.arrival_error_ms.absolute.p99 <= limit_bits(options.max_arrival_p99_ms)
        && report.arrival_error_ms.absolute.max <= limit_bits(options.max_arrival_max_ms);
    let m1 = if topology {
        t.mismatches
    } else {
        noted(t.mismatches, "canonical prefix topology does not match"@)
    };
    let m2 = if timing {
        m1
    } else {
        noted(m1, arrival.breach@)
    };
    &&& report.time_scale == options.time_scale
    &&& report.max_arrival_p99_ms == options.max_arrival_p99_ms
    &&& report.max_arrival_max_ms == options.max_arrival_max_ms
    &&& report.source_request_count == source.len()
    &&& report.replay_request_count == replay.len()
    &&& report.mapped_request_count == pairs.len()
    &&& report.missing_source_requests == matched.missing_source_requests
    &&& report.missing_replay_requests == matched.missing_replay_requests
    &&& report.trace_block_size_matches == t.block_size
    &&& report.input_length_matches == t.input_length
    &&& report.output_length_matches == t.output_length
    &&& report.agent_context_matches == t.context
    &&& report.compaction_metadata_matches == t.metadata
    &&& report.unverifiable_compaction_metadata == t.unverifiable
    &&& report.prefix_topology_matches == topology
    &&& report.arrival_error_ms.mean_signed == arrival.mean_signed_ms
    &&& exists|sorted: Seq<u64>|
        is_sorted(sorted) && #[trigger] sorted.to_multiset() == bits_of(arrival.absolute_ms@).to_multiset()
            && report.arrival_error_ms.absolute == percentiles_of(sorted)
    &&& report.arrival_timing_matches == timing
    &&& texts(report.mismatches@) == m2
    &&& texts(report.warnings@) == t.warnings
    &&& report.passed == (pairs.len() == mappings && t.block_size == pairs.len() && t.input_length == pairs.len()
        && t.output_length == pairs.len() && t.context == pairs.len() && topology && timing)
}

proof fn lemma_topology(a: Seq<TraceRequest>, b: Seq<TraceRequest>)
    requires
        a.len() == b.len(),
    ensures
        (forall|i: int| 0 <= i < a.len() ==> #[trigger] canonical_slice(a, i) == canonical_slice(b, i))
            <==> same_topology(a, b),
{
    let n = a.len();
    let ha = all_hashes(a, n);
    let hb = all_hashes(b, n);
    law_canonical_labels_show_the_shape(ha, hb);
    lemma_canonical(ha, ha.len());
    lemma_canonical(hb, hb.len());
    let ca = canonical(ha, ha.len()).1;
    let cb = canonical(hb, hb.len()).1;
    if forall|i: int| 0 <= i < a.len() ==> #[trigger] canonical_slice(a, i) == canonical_slice(b, i) {
        assert forall|i: int| 0 <= i < a.len() implies (#[trigger] a[i]).input_sequence_hashes@.len()
            == b[i].input_sequence_hashes@.len() by {
            assert(canonical_slice(a, i) == canonical_slice(b, i));
            lemma_slice_fits(a, i);
            lemma_slice_fits(b, i);
        }
        lemma_slices_make_all(a, b, n);
        assert(ca =~= ca.take(ha.len() as int));
        assert(cb =~= cb.take(hb.len() as int));
    }
    if same_topology(a, b) {
        assert(ca == cb);
        assert forall|i: int| 0 <= i < a.len() implies #[trigger] canonical_slice(a, i) == canonical_slice(b, i) by {
            lemma_same_starts(a, b, i as nat);
            assert(a[i].input_sequence_hashes@.len() == b[i].input_sequence_hashes@.len());
        }
    }
}

proof fn lemma_slice_fits(a: Seq<TraceRequest>, i: int)
    requires
        0 <= i < a.len(),
    ensures
        all_hashes(a, i as nat).len() + a[i].input_sequence_hashes@.len() <= all_hashes(a, a.len()).len(),
        canonical_slice(a, i).len() == a[i].input_sequence_hashes@.len(),
        canonical(all_hashes(a, a.len()), all_hashes(a, a.len()).len()).1.len() == all_hashes(a, a.len()).len(),
{
    lemma_all_hashes_split(a, i as nat + 1, a.len());
    lemma_canonical(all_hashes(a, a.len()), all_hashes(a, a.len()).len());
}

proof fn lemma_same_starts(a: Seq<TraceRequest>, b: Seq<TraceRequest>, n: nat)
    requires
        same_lengths(a, b),
        n <= a.len(),
    ensures
        all_hashes(a, n).len() == all_hashes(b, n).len(),
    decreases n,
{
    if n > 0 {
        lemma_same_starts(a, b, (n - 1) as nat);
        assert(a[n - 1].input_sequence_hashes@.len() == b[n - 1].input_sequence_hashes@.len());
    }
}

proof fn lemma_slices_make_all(a: Seq<TraceRequest>, b: Seq<TraceRequest>, n: nat)
    requires
        a.len() == b.len(),
        n <= a.len(),
        forall|i: int| 0 <= i < a.len() ==> #[trigger] canonical_slice(a, i) == canonical_slice(b, i),
    ensures
        all_hashes(a, n).len() == all_hashes(b, n).len(),
        canonical(all_hashes(a, a.len()), all_hashes(a, a.len()).len()).1.take(all_hashes(a, n).len() as int)
            == canonical(all_hashes(b, b.len()), all_hashes(b, b.len()).len()).1.take(all_hashes(b, n).len() as int),
    decreases n,
{
    let ca = canonical(all_hashes(a, a.len()), all_hashes(a, a.len()).len()).1;
    let cb = canonical(all_hashes(b, b.len()), all_hashes(b, b.len()).len()).1;
    if n > 0 {
        let m = n - 1;
        lemma_slices_make_all(a, b, m as nat);
        lemma_slice_fits(a, m);
        lemma_slice_fits(b, m);
        assert(canonical_slice(a, m) == canonical_slice(b, m));
        let start = all_hashes(a, m as nat).len() as int;
        assert(ca.take(all_hashes(a, n).len() as int) =~= ca.take(start) + canonical_slice(a, m));
        assert(cb.take(all_hashes(b, n).len() as int) =~= cb.take(start) + canonical_slice(b, m));
    } else {
        assert(ca.take(0) =~= cb.take(0));
    }
}

proof fn lemma_hash_at(requests: Seq<TraceRequest>, i: int, j: int)
    requires
        0 <= i < requests.len(),
        0 <= j < requests[i].input_sequence_hashes@.len(),
    ensures
        all_hashes(requests, i as nat).len() + j < all_hashes(requests, requests.len()).len(),
        all_hashes(requests, requests.len())[all_hashes(requests, i as nat).len() + j]
            == requests[i].input_sequence_hashes@[j],
        canonical_slice(requests, i)[j] == canonical(
            all_hashes(requests, requests.len()),
            all_hashes(requests, requests.len()).len(),
        ).1[all_hashes(requests, i as nat).len() + j],
{
    lemma_slice_fits(requests, i);
    lemma_all_hashes_split(requests, i as nat + 1, requests.len());
    let upto = all_hashes(requests, i as nat + 1);
    let all = all_hashes(requests, requests.len());
    let at = all_hashes(requests, i as nat).len() + j;
    assert(upto[at] == requests[i].input_sequence_hashes@[j]);
    assert(all.subrange(0, upto.len() as int)[at] == all[at]);
}

/// Renamed hashes keep their places: a request has as many labels as hashes, and the labels of all
/// requests, one request after the other, are the renamed list of all hashes.
pub proof fn law_labels_keep_their_places(requests: Seq<TraceRequest>, i: int)
    requires
        0 <= i < requests.len(),
    ensures
        ({
            let all = all_hashes(requests, requests.len());
            let start = all_hashes(requests, i as nat).len();
            let labels = canonical(all, all.len()).1;
            &&& canonical_slice(requests, i).len() == requests[i].input_sequence_hashes@.len()
            &&& start + requests[i].input_sequence_hashes@.len() <= labels.len()
            &&& forall|j: int|
                0 <= j < canonical_slice(requests, i).len() ==> #[trigger] canonical_slice(requests, i)[j]
                    == labels[start + j]
        }),
{
    lemma_slice_fits(requests, i);
}

/// Two labels, of one request or of two, are equal exactly where the hashes are.
pub proof fn law_labels_stand_for_hashes(requests: Seq<TraceRequest>, i: int, j: int, k: int, l: int)
    requires
        0 <= i < requests.len(),
        0 <= j < requests[i].input_sequence_hashes@.len(),
        0 <= k < requests.len(),
        0 <= l < requests[k].input_sequence_hashes@.len(),
    ensures
        canonical_slice(requests, i)[j] == canonical_slice(requests, k)[l] <==> requests[i].input_sequence_hashes@[j]
            == requests[k].input_sequence_hashes@[l],
{
    let all = all_hashes(requests, requests.len());
    lemma_hash_at(requests, i, j);
    lemma_hash_at(requests, k, l);
    lemma_canonical(all, all.len());
    let x = all_hashes(requests, i as nat).len() + j;
    let y = all_hashes(requests, k as nat).len() + l;
    let names = canonical(all, all.len()).0;
    assert(names.contains_key(all[x]) && names.contains_key(all[y]));
}

proof fn lemma_labels_so_far(hashes: Seq<u64>, n: nat)
    requires
        n <= hashes.len(),
    ensures
        canonical(hashes, n).1.to_set().len() == canonical(hashes, n).0.len(),
        canonical(hashes, n).1.to_set().finite(),
        forall|v: u64| #[trigger] canonical(hashes, n).1.contains(v) ==> v < canonical(hashes, n).0.len(),
    decreases n,
{
    if n > 0 {
        lemma_labels_so_far(hashes, (n - 1) as nat);
        lemma_canonical(hashes, (n - 1) as nat);
        lemma_canonical(hashes, n);
        let (before, old_list) = canonical(hashes, (n - 1) as nat);
        let (names, list) = canonical(hashes, n);
        lemma_push_to_set(old_list, list.last());
        if before.contains_key(hashes[n - 1]) {
            let i = choose|i: int| 0 <= i < n - 1 && #[trigger] hashes[i] == hashes[n - 1];
            assert(old_list[i] == list.last());
            assert(list.to_set() =~= old_list.to_set());
        } else {
            lemma_word_set_size(names.dom());
            assert(!old_list.contains(list.last()));
        }
        assert forall|v: u64| #[trigger] list.contains(v) implies v < names.len() by {
            let i = list.index_of(v);
            if i < n - 1 {
                assert(old_list[i] == v);
                assert(old_list.contains(v));
            } else if before.contains_key(hashes[n - 1]) {
                assert(before[hashes[n - 1]] < before.len());
            }
        }
    } else {
        assert(canonical(hashes, 0).1.to_set() =~= Set::<u64>::empty());
    }
}

/// Labels count up from zero in the order in which the hashes come: a label that is new is the
/// number of labels before it, and every other one occurs before it.
pub proof fn law_labels_count_up(hashes: Seq<u64>, p: int)
    requires
        0 <= p < hashes.len(),
    ensures
        ({
            let labels = canonical(hashes, hashes.len()).1;
            &&& labels.len() == hashes.len()
            &&& labels.take(p).contains(labels[p]) || labels[p] == labels.take(p).to_set().len()
            &&& labels.take(p).contains(labels[p]) ==> labels[p] < labels.take(p).to_set().len()
        }),
{
    let labels = canonical(hashes, hashes.len()).1;
    lemma_canonical(hashes, hashes.len());
    lemma_canonical_prefix(hashes, p as nat, hashes.len());
    lemma_canonical_prefix(hashes, p as nat + 1, hashes.len());
    lemma_labels_so_far(hashes, p as nat);
    lemma_canonical(hashes, p as nat);
    lemma_canonical(hashes, p as nat + 1);
    let (names, before) = canonical(hashes, p as nat);
    let more = canonical(hashes, p as nat + 1).1;
    assert(labels.take(p) =~= before);
    assert(labels.subrange(0, p + 1)[p] == labels[p]);
    assert(more[p] == labels[p]);
    if names.contains_key(hashes[p]) {
        let i = choose|i: int| 0 <= i < p && #[trigger] hashes[i] == hashes[p];
        assert(before[i] == labels[p]);
    } else {
        lemma_word_set_size(names.dom().insert(hashes[p]));
    }
}

/// `rename` maps one list onto another, and no two of its hashes onto one.
pub open spec fn renames(rename: spec_fn(u64) -> u64, a: Seq<u64>, b: Seq<u64>) -> bool {
    &&& a.len() == b.len()
    &&& forall|i: int| 0 <= i < a.len() ==> rename(#[trigger] a[i]) == b[i]
    &&& forall|i: int, j: int|
        0 <= i < a.len() && 0 <= j < a.len() && rename(#[trigger] a[i]) == rename(#[trigger] a[j]) ==> a[i] == a[j]
}

/// Two sides are renamed alike exactly where their requests have as many hashes each, and one
/// renaming maps the hashes of one side onto those of the other, no two onto one.
pub proof fn law_sides_agree_up_to_renaming(a: Seq<TraceRequest>, b: Seq<TraceRequest>)
    requires
        a.len() == b.len(),
    ensures
        (forall|i: int| 0 <= i < a.len() ==> #[trigger] canonical_slice(a, i) == canonical_slice(b, i)) <==> (
        same_lengths(a, b) && exists|rename: spec_fn(u64) -> u64| #[trigger]
            renames(rename, all_hashes(a, a.len()), all_hashes(b, b.len()))),
{
    lemma_topology(a, b);
    let ha = all_hashes(a, a.len());
    let hb = all_hashes(b, b.len());
    if same_shape(ha, hb) {
        let rename = |hash: u64| hb[choose|i: int| 0 <= i < ha.len() && #[trigger] ha[i] == hash];
        assert forall|i: int| 0 <= i < ha.len() implies rename(#[trigger] ha[i]) == hb[i] by {
            let k = choose|k: int| 0 <= k < ha.len() && #[trigger] ha[k] == ha[i];
            assert(ha[k] == ha[i]);
            assert(hb[k] == hb[i]);
        }
        assert forall|i: int, j: int|
            0 <= i < ha.len() && 0 <= j < ha.len() && rename(#[trigger] ha[i]) == rename(#[trigger] ha[j]) implies ha[i]
            == ha[j] by {
            assert(rename(ha[i]) == hb[i] && rename(ha[j]) == hb[j]);
        }
        assert(renames(rename, ha, hb));
    }
    if exists|rename: spec_fn(u64) -> u64| #[trigger] renames(rename, ha, hb) {
        let rename = choose|rename: spec_fn(u64) -> u64| #[trigger] renames(rename, ha, hb);
        assert forall|i: int, j: int| 0 <= i < ha.len() && 0 <= j < ha.len() implies (#[trigger] ha[i]
            == #[trigger] ha[j] <==> hb[i] == hb[j]) by {
            assert(rename(ha[i]) == hb[i] && rename(ha[j]) == hb[j]);
        }
        assert(same_shape(ha, hb));
    }
}

/// Compares the paired requests.
pub fn compare_pairs(
    source: &Vec<TraceRequest>,
    replay: &Vec<TraceRequest>,
    mappings: usize,
    matched: Matched,
    arrival: ArrivalMeasure,
    options: &CompareOptions,
) -> (report: FidelityReport)
    requires
        forall|i: int|
            0 <= i < matched.pairs@.len() ==> (#[trigger] matched.pairs@[i]).0 < source@.len()
                && matched.pairs@[i].1 < replay@.len(),
    ensures
        is_report(report, source@, replay@, mappings as nat, matched, arrival, *options),
{
    let ghost pairs = matched.pairs@;
    let ghost listed = texts(matched.mismatches@);
    let n = matched.pairs.len();
    let mut counts = Counts {
        block_size: 0,
        input_length: 0,
        output_length: 0,
        context: 0,
        metadata: 0,
        unverifiable: 0,
        mismatches: matched.mismatches,
        warnings: Vec::new(),
    };
    let mut both: Vec<(&TraceRequest, &TraceRequest)> = Vec::with_capacity(n);
    assert(counts.tally() =~= tallied(source@, replay@, pairs, listed, 0));
    let mut i: usize = 0;
    while i < n
        invariant
            i <= n,
            n == pairs.len(),
            pairs == matched.pairs@,
            forall|k: int|
                0 <= k < pairs.len() ==> (#[trigger] pairs[k]).0 < source@.len() && pairs[k].1 < replay@.len(),
            counts.below(i as int),
            counts.tally() == tallied(source@, replay@, pairs, listed, i as nat),
            both@.len() == i,
            forall|k: int|
                0 <= k < i ==> *(#[trigger] both@[k]).0 == source@[pairs[k].0 as int] && *both@[k].1
                    == replay@[pairs[k].1 as int],
        decreases n - i,
    {
        let (s, r) = matched.pairs[i];
        assert(pairs[i as int] == (s, r));
        counts.count_pair(&source[s], &replay[r]);
        both.push((&source[s], &replay[r]));
        i += 1;
    }
    let Counts {
        block_size,
        input_length,
        output_length,
        context,
        metadata,
        unverifiable,
        mismatches,
        warnings,
    } = counts;
    let mut mismatches = mismatches;
    let left = canonical_prefix_sequences(&both, true);
    let right = canonical_prefix_sequences(&both, false);
    let topology = same_lists(&left, &right);
    proof {
        let a = paired_side(source@, replay@, pairs, true);
        let b = paired_side(source@, replay@, pairs, false);
        assert(side(both@, true) =~= a);
        assert(side(both@, false) =~= b);
        lemma_topology(a, b);
        if topology {
            assert forall|k: int| 0 <= k < a.len() implies #[trigger] canonical_slice(a, k) == canonical_slice(
                b,
                k,
            ) by {
                assert(left@[k]@ == right@[k]@);
            }
        } else {
            let k = choose|k: int| 0 <= k < left@.len() && (#[trigger] left@[k])@ != right@[k]@;
            assert(canonical_slice(a, k) != canonical_slice(b, k));
        }
    }
    if !topology {
        add_mismatch(&mut mismatches, "canonical prefix topology does not match".to_string());
    }
    let mut errors: Vec<u64> = Vec::with_capacity(arrival.absolute_ms.len());
    let mut k: usize = 0;
    while k < arrival.absolute_ms.len()
        invariant
            k <= arrival.absolute_ms@.len(),
            errors@ == bits_of(arrival.absolute_ms@).take(k as int),
        decreases arrival.absolute_ms@.len() - k,
    {
        errors.push(arrival.absolute_ms[k].bits);
        k += 1;
        assert(errors@ =~= bits_of(arrival.absolute_ms@).take(k as int));
    }
    assert(bits_of(arrival.absolute_ms@).take(k as int) =~= bits_of(arrival.absolute_ms@));
    let absolute = percentiles(errors);
    let p99_limit = if options.max_arrival_p99_ms.bits == crate::double::SIGN_BITS {
        0
    } else {
        options.max_arrival_p99_ms.bits
    };
    let max_limit = if options.max_arrival_max_ms.bits == crate::double::SIGN_BITS {
        0
    } else {
        options.max_arrival_max_ms.bits
    };
    let timing = absolute.p99 <= p99_limit && absolute.max <= max_limit;
    if !timing {
        add_mismatch(&mut mismatches, arrival.breach);
    }
    let passed = n == mappings && block_size == n && input_length == n && output_length == n && context == n
        && topology && timing;
    FidelityReport {
        time_scale: options.time_scale,
        max_arrival_p99_ms: options.max_arrival_p99_ms,
        max_arrival_max_ms: options.max_arrival_max_ms,
        source_request_count: source.len(),
        replay_request_count: replay.len(),
        mapped_request_count: n,
        missing_source_requests: matched.missing_source_requests,
        missing_replay_requests: matched.missing_replay_requests,
        trace_block_size_matches: block_size,
        input_length_matches: input_length,
        output_length_matches: output_length,
        agent_context_matches: context,
        compaction_metadata_matches: metadata,
        unverifiable_compaction_metadata: unverifiable,
        prefix_topology_matches: topology,
        arrival_error_ms: ArrivalError { absolute, mean_signed: arrival.mean_signed_ms },
        arrival_timing_matches: timing,
        mismatches,
        warnings,
        passed,
    }
}

/// Where each paired request arrived after the first pair: in the source and in the replay.
pub fn arrival_offsets(
    source: &Vec<TraceRequest>,
    replay: &Vec<TraceRequest>,
    matched: &Matched,
) -> (offsets: Vec<(i128, i128)>)
    requires
        forall|i: int|
            0 <= i < matched.pairs@.len() ==> (#[trigger] matched.pairs@[i]).0 < source@.len()
                && matched.pairs@[i].1 < replay@.len(),
    ensures
        offsets@.len() == matched.pairs@.len(),
        forall|i: int|
            0 <= i < offsets@.len() ==> #[trigger] offsets@[i] == offset_pair(
                source@,
                replay@,
                matched.pairs@[0],
                matched.pairs@[i],
            ),
{
    let mut offsets: Vec<(i128, i128)> = Vec::with_capacity(matched.pairs.len());
    let mut i: usize = 0;
    while i < matched.pairs.len()
        invariant
            i <= matched.pairs@.len(),
            forall|k: int|
                0 <= k < matched.pairs@.len() ==> (#[trigger] matched.pairs@[k]).0 < source@.len()
                    && matched.pairs@[k].1 < replay@.len(),
            offsets@.len() == i,
            forall|k: int|
                0 <= k < i ==> #[trigger] offsets@[k] == offset_pair(
                    source@,
                    replay@,
                    matched.pairs@[0],
                    matched.pairs@[k],
                ),
        decreases matched.pairs@.len() - i,
    {
        let (s0, r0) = matched.pairs[0];
        let (s, r) = matched.pairs[i];
        assert(matched.pairs@[0] == (s0, r0));
        assert(matched.pairs@[i as int] == (s, r));
        offsets.push(
            (
                source[s].request_received_ms as i128 - source[s0].request_received_ms as i128,
                replay[r].request_received_ms as i128 - replay[r0].request_received_ms as i128,
            ),
        );
        i += 1;
    }
    offsets
}

/// The offsets of one pair from the first.
pub open spec fn offset_pair(
    source: Seq<TraceRequest>,
    replay: Seq<TraceRequest>,
    first: (usize, usize),
    pair: (usize, usize),
) -> (i128, i128) {
    (
        (source[pair.0 as int].request_received_ms - source[first.0 as int].request_received_ms) as i128,
        (replay[pair.1 as int].request_received_ms - replay[first.1 as int].request_received_ms) as i128,
    )
}

/// Compares a replay with its source, given how far the arrivals of the paired requests are off.
pub fn compare_loaded(
    source: &Vec<TraceRequest>,
    replay: &Vec<TraceRequest>,
    mappings: &Vec<RequestMapping>,
    arrival: ArrivalMeasure,
    options: &CompareOptions,
) -> (result: Result<FidelityReport, CompareError>)
    ensures
        match result {
            Ok(report) => has_x_ids(replay@) && exists|matched: Matched| #[trigger]
                is_matched(matched, source@, replay@, mappings@) && is_report(
                    report,
                    source@,
                    replay@,
                    mappings@.len(),
                    matched,
                    arrival,
                    *options,
                ),
            Err(error) => !has_x_ids(replay@) && error == CompareError::NoReplayIds,
        },
{
    match match_requests(source, replay, mappings) {
        Ok(matched) => Ok(compare_pairs(source, replay, mappings.len(), matched, arrival, options)),
        Err(error) => Err(error),
    }
}

} // verus!
