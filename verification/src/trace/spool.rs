//! Selection from a store of requests, a batch at a time, and reading the selection back.

use crate::contracts::{TraceManifest, TraceRequest};
use crate::trace::index::{
    addition_failure, is_totals, totals_failure, SelectionError, SelectionFailure, SelectionIndex,
};
use crate::trace::load::increasing;
use std::collections::VecDeque;
use vstd::prelude::*;

verus! {

/// Where a selection is kept.
#[derive(Debug)]
pub struct TraceStorageManifest {
    pub backend: String,
    pub database_bytes: u64,
    pub request_batch_size: usize,
}

/// Describes a store.
pub fn storage_manifest(database_bytes: u64, request_batch_size: usize) -> (manifest: TraceStorageManifest)
    ensures
        manifest.backend@ == "sqlite-spool-v1"@,
        manifest.database_bytes == database_bytes,
        manifest.request_batch_size == request_batch_size,
{
    TraceStorageManifest { backend: "sqlite-spool-v1".to_string(), database_bytes, request_batch_size }
}

/// Why a number cannot be stored.
#[derive(Debug, Clone, Copy, PartialEq, Eq, Structural)]
pub enum StoreRangeError {
    Value,
    Timestamp,
}

impl StoreRangeError {
    /// The message.
    pub open spec fn text(self) -> Seq<char> {
        match self {
            StoreRangeError::Value => "trace value does not fit SQLite INTEGER"@,
            StoreRangeError::Timestamp => "trace timestamp does not fit SQLite INTEGER"@,
        }
    }

    /// The message.
    pub fn message(&self) -> (text: String)
        ensures
            text@ == self.text(),
    {
        match self {
            StoreRangeError::Value => "trace value does not fit SQLite INTEGER".to_string(),
            StoreRangeError::Timestamp => "trace timestamp does not fit SQLite INTEGER".to_string(),
        }
    }
}

/// A count as the store holds it.
pub fn usize_to_i64(value: usize) -> (result: Result<i64, StoreRangeError>)
    ensures
        result == (if value <= i64::MAX {
            Ok(value as i64)
        } else {
            Err(StoreRangeError::Value)
        }),
{
    if value as u64 <= i64::MAX as u64 {
        Ok(value as i64)
    } else {
        Err(StoreRangeError::Value)
    }
}

/// A time as the store holds it.
pub fn u64_to_i64(value: u64) -> (result: Result<i64, StoreRangeError>)
    ensures
        result == (if value <= i64::MAX {
            Ok(value as i64)
        } else {
            Err(StoreRangeError::Timestamp)
        }),
{
    if value <= i64::MAX as u64 {
        Ok(value as i64)
    } else {
        Err(StoreRangeError::Timestamp)
    }
}

/// Checks what a store is opened with.
pub fn check_store(paths: usize, request_batch_size: usize) -> (result: Result<(), SelectionError>)
    ensures
        match result {
            Ok(()) => paths > 0 && request_batch_size > 0,
            Err(error) => error@ == (if paths == 0 {
                SelectionFailure::NoPaths
            } else {
                SelectionFailure::NoBatch
            }) && (paths == 0 || request_batch_size == 0),
        },
{
    if paths == 0 {
        return Err(SelectionError::NoPaths);
    }
    if request_batch_size == 0 {
        return Err(SelectionError::NoBatch);
    }
    Ok(())
}

/// Checks that something was stored.
pub fn check_stored(rows: u64, session_id: Option<&str>) -> (result: Result<(), SelectionError>)
    ensures
        match result {
            Ok(()) => rows > 0,
            Err(error) => rows == 0 && error@ == (match session_id {
                Some(id) => SelectionFailure::NoSession { session_id: id@ },
                None => SelectionFailure::NoRequests,
            }),
        },
{
    if rows == 0 {
        return match session_id {
            Some(id) => Err(SelectionError::NoSession { session_id: id.to_string() }),
            None => Err(SelectionError::NoRequests),
        };
    }
    Ok(())
}

/// What to ask the store for: the first rows after a key, in the order of keys.
#[derive(Debug, Clone, Copy, PartialEq, Eq)]
pub struct BatchQuery {
    pub after: Option<(u64, usize)>,
    pub limit: usize,
}

/// One key comes before another.
pub open spec fn key_before(a: (u64, usize), b: (u64, usize)) -> bool {
    a.0 < b.0 || (a.0 == b.0 && a.1 < b.1)
}

/// Each key comes before the ones after it.
pub open spec fn keys_rise(keys: Seq<(u64, usize)>) -> bool {
    forall|i: int, j: int| 0 <= i < j < keys.len() ==> key_before(#[trigger] keys[i], #[trigger] keys[j])
}

/// A key that a query asks for.
pub open spec fn is_after(key: (u64, usize), after: Option<(u64, usize)>) -> bool {
    match after {
        Some(bound) => key_before(bound, key),
        None => true,
    }
}

/// The answer to a query, from a store that holds `keys`.
pub open spec fn answers(keys: Seq<(u64, usize)>, query: BatchQuery) -> Seq<(u64, usize)> {
    let rest = keys.filter(|key: (u64, usize)| is_after(key, query.after));
    if rest.len() <= query.limit {
        rest
    } else {
        rest.take(query.limit as int)
    }
}

/// Where the first `taken` rows of a store have been selected, the next batch is the rows right
/// behind them: nothing is left out, nothing comes twice.
pub proof fn law_batches_are_contiguous(keys: Seq<(u64, usize)>, taken: nat, limit: usize)
    requires
        keys_rise(keys),
        taken <= keys.len(),
    ensures
        answers(
            keys,
            BatchQuery {
                after: if taken == 0 {
                    None
                } else {
                    Some(keys[taken - 1])
                },
                limit,
            },
        ) == keys.subrange(
            taken as int,
            if taken + limit <= keys.len() {
                taken + limit
            } else {
                keys.len() as int
            },
        ),
{
    let after = if taken == 0 {
        None
    } else {
        Some(keys[taken - 1])
    };
    let wanted = |key: (u64, usize)| is_after(key, after);
    lemma_filter_is_suffix(keys, taken as int, wanted, keys.len() as int);
    let rest = keys.filter(wanted);
    assert(keys.take(keys.len() as int) =~= keys);
    assert(rest == keys.subrange(taken as int, keys.len() as int));
    if rest.len() > limit {
        assert(rest.take(limit as int) =~= keys.subrange(taken as int, taken + limit));
    } else {
        assert(rest =~= keys.subrange(taken as int, keys.len() as int));
    }
}

proof fn lemma_filter_is_suffix(
    keys: Seq<(u64, usize)>,
    taken: int,
    wanted: spec_fn((u64, usize)) -> bool,
    n: int,
)
    requires
        keys_rise(keys),
        0 <= taken <= keys.len(),
        0 <= n <= keys.len(),
        wanted == (|key: (u64, usize)| is_after(
            key,
            if taken == 0 {
                None
            } else {
                Some(keys[taken - 1])
            },
        )),
    ensures
        keys.take(n).filter(wanted) == if n <= taken {
            Seq::<(u64, usize)>::empty()
        } else {
            keys.subrange(taken, n)
        },
    decreases n,
{
    reveal(Seq::filter);
    if n > 0 {
        lemma_filter_is_suffix(keys, taken, wanted, n - 1);
        let head = keys.take(n);
        assert(head.drop_last() =~= keys.take(n - 1));
        assert(head.last() == keys[n - 1]);
        if n <= taken {
            if n < taken {
                assert(key_before(keys[n - 1], keys[taken - 1]));
            }
            assert(!wanted(keys[n - 1]));
        } else {
            if taken > 0 {
                assert(key_before(keys[taken - 1], keys[n - 1]));
            }
            assert(wanted(keys[n - 1]));
            assert(keys.subrange(taken, n) =~= (if n - 1 <= taken {
                Seq::<(u64, usize)>::empty()
            } else {
                keys.subrange(taken, n - 1)
            }).push(keys[n - 1]));
        }
    } else {
        assert(keys.take(0) =~= Seq::<(u64, usize)>::empty());
    }
}

/// Selects requests from a store.
pub struct SpoolSelection {
    limit: usize,
    batch_size: usize,
    after: Option<(u64, usize)>,
    index: SelectionIndex,
}

impl SpoolSelection {
    /// The selection so far.
    pub closed spec fn requests(&self) -> Seq<TraceRequest> {
        self.index.requests()
    }

    /// The key of the last row that was taken.
    pub closed spec fn last_key(&self) -> Option<(u64, usize)> {
        self.after
    }

    /// How many requests are wanted at most.
    pub closed spec fn wanted(&self) -> usize {
        self.limit
    }

    /// How many are asked for at a time.
    pub closed spec fn batch(&self) -> usize {
        self.batch_size
    }

    /// The books are in order.
    pub closed spec fn wf(&self) -> bool {
        self.index.wf() && self.index.requests().len() <= self.limit
    }

    /// Begins a selection.
    pub fn new(max_requests: Option<usize>, batch_size: usize) -> (selection: Self)
        ensures
            selection.wf(),
            selection.requests() == Seq::<TraceRequest>::empty(),
            selection.last_key() is None,
            selection.wanted() == (match max_requests {
                Some(limit) => limit,
                None => usize::MAX,
            }),
            selection.batch() == batch_size,
    {
        let limit = match max_requests {
            Some(limit) => limit,
            None => usize::MAX,
        };
        SpoolSelection { limit, batch_size, after: None, index: SelectionIndex::new() }
    }

    /// What to ask the store for next; nothing once the selection is full.
    pub fn next_query(&self) -> (query: Option<BatchQuery>)
        requires
            self.wf(),
        ensures
            query == (if self.requests().len() < self.wanted() {
                Some(
                    BatchQuery {
                        after: self.last_key(),
                        limit: if self.batch() <= self.wanted() - self.requests().len() {
                            self.batch()
                        } else {
                            (self.wanted() - self.requests().len()) as usize
                        },
                    },
                )
            } else {
                None
            }),
    {
        let selected = self.index.len();
        if selected < self.limit {
            let remaining = self.limit - selected;
            Some(
                BatchQuery {
                    after: self.after,
                    limit: if self.batch_size <= remaining {
                        self.batch_size
                    } else {
                        remaining
                    },
                },
            )
        } else {
            None
        }
    }

    /// Takes one row of an answer, and gives it back with its place in the selection.
    pub fn take_row(&mut self, request: TraceRequest) -> (result: Result<TraceRequest, SelectionError>)
        requires
            old(self).wf(),
            old(self).requests().len() < old(self).wanted(),
        ensures
            final(self).wanted() == old(self).wanted(),
            final(self).batch() == old(self).batch(),
            final(self).last_key() == Some((request.request_received_ms, request.ordinal)),
            ({
                let placed = TraceRequest { ordinal: old(self).requests().len() as usize, ..request };
                match result {
                    Ok(row) => row == placed && addition_failure(old(self).requests(), placed) is None
                        && final(self).wf() && final(self).requests() == old(self).requests().push(placed),
                    Err(error) => addition_failure(old(self).requests(), placed) == Some(error@)
                        && final(self).requests() == old(self).requests(),
                }
            }),
    {
        self.after = Some((request.request_received_ms, request.ordinal));
        let mut placed = request;
        placed.ordinal = self.index.len();
        match self.index.add_request(&placed) {
            Ok(()) => Ok(placed),
            Err(error) => Err(error),
        }
    }

    /// Totals the selection.
    pub fn finish(self, source_digest: &[u8]) -> (result: Result<TraceManifest, SelectionError>)
        requires
            self.wf(),
        ensures
            match result {
                Ok(manifest) => totals_failure(self.requests(), true) is None && is_totals(
                    manifest,
                    self.requests(),
                    source_digest@,
                ),
                Err(error) => totals_failure(self.requests(), true) == Some(error@) && (
                error matches SelectionError::BlockSizes { sizes, .. } ==> increasing(sizes@)),
            },
    {
        self.index.finish(source_digest, true)
    }
}

/// Reads a selection back, a batch at a time.
pub struct StoredTraceReader {
    next_ordinal: usize,
    batch_size: usize,
    buffered: VecDeque<TraceRequest>,
}

/// The ordinal after the given one.
pub open spec fn successor(ordinal: usize) -> usize {
    if ordinal < usize::MAX {
        (ordinal + 1) as usize
    } else {
        usize::MAX
    }
}

impl StoredTraceReader {
    /// The ordinal to go on with.
    pub closed spec fn position(&self) -> usize {
        self.next_ordinal
    }

    /// How many requests are asked for at a time.
    pub closed spec fn batch(&self) -> usize {
        self.batch_size
    }

    /// The requests that are at hand.
    pub closed spec fn at_hand(&self) -> Seq<TraceRequest> {
        self.buffered@
    }

    /// Starts at the first request.
    pub fn new(batch_size: usize) -> (reader: Self)
        ensures
            reader.position() == 0,
            reader.batch() == batch_size,
            reader.at_hand() == Seq::<TraceRequest>::empty(),
    {
        StoredTraceReader { next_ordinal: 0, batch_size, buffered: VecDeque::new() }
    }

    /// The next request at hand.
    pub fn next_buffered(&mut self) -> (result: Option<TraceRequest>)
        ensures
            final(self).batch() == old(self).batch(),
            match result {
                Some(request) => old(self).at_hand().len() > 0 && request == old(self).at_hand()[0]
                    && final(self).at_hand() == old(self).at_hand().drop_first() && final(self).position()
                    == successor(request.ordinal),
                None => old(self).at_hand().len() == 0 && final(self).at_hand() == old(self).at_hand()
                    && final(self).position() == old(self).position(),
            },
    {
        match self.buffered.pop_front() {
            Some(request) => {
                self.next_ordinal = if request.ordinal < usize::MAX {
                    request.ordinal + 1
                } else {
                    usize::MAX
                };
                assert(self.buffered@ =~= old(self).buffered@.drop_first());
                Some(request)
            },
            None => None,
        }
    }

    /// What to ask the store for: requests from this ordinal on, this many at most.
    pub fn query(&self) -> (query: (usize, usize))
        ensures
            query == (self.position(), self.batch()),
    {
        (self.next_ordinal, self.batch_size)
    }

    /// Takes the answer of the store.
    pub fn refill(&mut self, rows: Vec<TraceRequest>)
        ensures
            final(self).position() == old(self).position(),
            final(self).batch() == old(self).batch(),
            final(self).at_hand() == old(self).at_hand() + rows@,
    {
        let ghost all = rows@;
        assert(self.buffered@ =~= old(self).buffered@ + all.take(0));
        for row in it: rows
            invariant
                it.seq() == all,
                self.buffered@ == old(self).buffered@ + all.take(it.index() as int),
                self.next_ordinal == old(self).next_ordinal,
                self.batch_size == old(self).batch_size,
        {
            self.buffered.push_back(row);
            assert(self.buffered@ =~= old(self).buffered@ + all.take(it.index() + 1));
        }
        assert(all.take(all.len() as int) =~= all);
    }
}

} // verus!
