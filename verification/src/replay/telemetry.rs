//! Engine telemetry beside request results.

use crate::double::Real;
use crate::groups::{lemma_places, places, TextGroups};
use crate::json::Json;
use crate::replay::result::RequestResult;
use crate::text::{blank, is_blank};
use vstd::prelude::*;

verus! {

/// What an engine reported of one request.
#[derive(Debug)]
pub struct EngineTelemetryRecord {
    pub request_id: String,
    pub timestamp_ms: Option<u64>,
    pub cache_source_tokens: Vec<(String, u64)>,
    pub physical_free_tokens: Option<u64>,
    pub physical_free_events: Option<u64>,
    pub cache_ownership_tokens: Vec<(String, u64)>,
    pub occupancy_tokens: Option<u64>,
    pub queue_time_ms: Option<Real>,
    pub extra: Vec<(String, Json)>,
}

/// Why telemetry cannot be joined.
#[derive(Debug)]
pub enum TelemetryError {
    NoFiles,
    EmptyRequestId { path: String },
    BadQueueTime { path: String },
}

impl TelemetryError {
    /// What a reader is told.
    pub open spec fn text(self) -> Seq<char> {
        match self {
            TelemetryError::NoFiles => "at least one engine telemetry file is required"@,
            TelemetryError::EmptyRequestId { path } => path@ + " contains an empty telemetry request_id"@,
            TelemetryError::BadQueueTime { path } => path@ + " contains a negative or non-finite queue_time_ms"@,
        }
    }

    /// Writes what a reader is told.
    pub fn message(&self) -> (message: String)
        ensures
            message@ == self.text(),
    {
        match self {
            TelemetryError::NoFiles => "at least one engine telemetry file is required".to_string(),
            TelemetryError::EmptyRequestId { path } => {
                let mut message = path.clone();
                message.append(" contains an empty telemetry request_id");
                message
            },
            TelemetryError::BadQueueTime { path } => {
                let mut message = path.clone();
                message.append(" contains a negative or non-finite queue_time_ms");
                message
            },
        }
    }
}

/// What a join comes to.
#[derive(Debug, PartialEq, Eq)]
pub struct TelemetryJoinSummary {
    pub request_records: usize,
    pub matched_requests: usize,
    pub unmatched_requests: usize,
    pub telemetry_records: usize,
    pub unmatched_telemetry_records: usize,
    pub output: String,
}

/// What is wrong with a record.
pub open spec fn record_failure(record: EngineTelemetryRecord, path: String) -> Option<TelemetryError> {
    if blank(record.request_id@) {
        Some(TelemetryError::EmptyRequestId { path })
    } else if record.queue_time_ms matches Some(time) && !time.not_negative() {
        Some(TelemetryError::BadQueueTime { path })
    } else {
        None
    }
}

/// Checks a record.
pub fn validate_record(record: &EngineTelemetryRecord, path: &String) -> (failure: Option<TelemetryError>)
    ensures
        failure == record_failure(*record, *path),
{
    if is_blank(record.request_id.as_str()) {
        return Some(TelemetryError::EmptyRequestId { path: path.clone() });
    }
    if let Some(time) = &record.queue_time_ms {
        if !time.is_not_negative() {
            return Some(TelemetryError::BadQueueTime { path: path.clone() });
        }
    }
    None
}

/// The names that records go by.
pub open spec fn record_ids(records: Seq<EngineTelemetryRecord>) -> Seq<Option<Seq<char>>> {
    Seq::new(records.len(), |i: int| Some(records[i].request_id@))
}

/// The records under a name, in order; none where the name has been used before.
pub open spec fn taken(records: Seq<EngineTelemetryRecord>, used: Set<Seq<char>>, name: Seq<char>) -> Seq<
    EngineTelemetryRecord,
> {
    let found = places(record_ids(records), name, records.len());
    if used.contains(name) {
        Seq::empty()
    } else {
        Seq::new(found.len(), |k: int| records[found[k] as int])
    }
}

/// The records under each of some names in turn.
pub open spec fn joined(records: Seq<EngineTelemetryRecord>, used: Set<Seq<char>>, names: Seq<Seq<char>>) -> Seq<
    EngineTelemetryRecord,
>
    decreases names.len(),
{
    if names.len() == 0 {
        Seq::empty()
    } else {
        joined(records, used, names.drop_last()) + taken(
            records,
            used_after(used, names.drop_last()),
            names.last(),
        )
    }
}

/// The names used once some more have been.
pub open spec fn used_after(used: Set<Seq<char>>, names: Seq<Seq<char>>) -> Set<Seq<char>>
    decreases names.len(),
{
    if names.len() == 0 {
        used
    } else {
        used_after(used, names.drop_last()).insert(names.last())
    }
}

/// How many of the first `n` records go by a name that has not been used.
pub open spec fn left_over(records: Seq<EngineTelemetryRecord>, used: Set<Seq<char>>, n: nat) -> nat
    decreases n,
{
    if n == 0 {
        0
    } else {
        left_over(records, used, (n - 1) as nat) + (if used.contains(records[n - 1].request_id@) {
            0nat
        } else {
            1nat
        })
    }
}

proof fn lemma_left_over(records: Seq<EngineTelemetryRecord>, used: Set<Seq<char>>, name: Seq<char>, n: nat)
    requires
        n <= records.len(),
    ensures
        left_over(records, used, n) == left_over(records, used.insert(name), n) + (if used.contains(name) {
            0
        } else {
            places(record_ids(records), name, n).len()
        }),
    decreases n,
{
    if n > 0 {
        lemma_left_over(records, used, name, (n - 1) as nat);
        assert(record_ids(records)[n - 1] == Some(records[n - 1].request_id@));
    }
}

proof fn lemma_all_left(records: Seq<EngineTelemetryRecord>, n: nat)
    ensures
        left_over(records, Set::empty(), n) == n,
    decreases n,
{
    if n > 0 {
        lemma_all_left(records, (n - 1) as nat);
    }
}

/// The names that a request goes by: the one it was replayed under, then those of its source.
pub open spec fn request_names(request: RequestResult) -> Seq<Seq<char>> {
    let first = seq![request.replay_request_id@];
    let second = match request.source_x_request_id {
        Some(name) => first.push(name@),
        None => first,
    };
    second.push(request.source_request_id@)
}

/// The names used by the first `n` requests.
pub open spec fn used_by(requests: Seq<RequestResult>, n: nat) -> Set<Seq<char>>
    decreases n,
{
    if n == 0 {
        Set::empty()
    } else {
        used_after(used_by(requests, (n - 1) as nat), request_names(requests[n - 1]))
    }
}

/// What goes to a request.
pub open spec fn telemetry_of(records: Seq<EngineTelemetryRecord>, requests: Seq<RequestResult>, i: int) -> Seq<
    EngineTelemetryRecord,
> {
    joined(records, used_by(requests, i as nat), request_names(requests[i]))
}

/// How many records go to the first `n` requests.
pub open spec fn handed_out(records: Seq<EngineTelemetryRecord>, requests: Seq<RequestResult>, n: nat) -> nat
    decreases n,
{
    if n == 0 {
        0
    } else {
        handed_out(records, requests, (n - 1) as nat) + telemetry_of(records, requests, n - 1).len()
    }
}

/// How many of the first `n` requests get a record.
pub open spec fn matched_of(records: Seq<EngineTelemetryRecord>, requests: Seq<RequestResult>, n: nat) -> nat
    decreases n,
{
    if n == 0 {
        0
    } else {
        matched_of(records, requests, (n - 1) as nat) + (if telemetry_of(records, requests, n - 1).len() > 0 {
            1nat
        } else {
            0nat
        })
    }
}

proof fn lemma_joined_leaves(records: Seq<EngineTelemetryRecord>, used: Set<Seq<char>>, names: Seq<Seq<char>>)
    ensures
        left_over(records, used, records.len()) == joined(records, used, names).len() + left_over(
            records,
            used_after(used, names),
            records.len(),
        ),
    decreases names.len(),
{
    if names.len() > 0 {
        lemma_joined_leaves(records, used, names.drop_last());
        lemma_left_over(records, used_after(used, names.drop_last()), names.last(), records.len());
    }
}

/// No record is lost and none goes out twice: what the requests get and what is left over are all
/// the records there are.
pub proof fn law_no_record_is_lost(records: Seq<EngineTelemetryRecord>, requests: Seq<RequestResult>, n: nat)
    requires
        n <= requests.len(),
    ensures
        handed_out(records, requests, n) + left_over(records, used_by(requests, n), records.len()) == records.len(),
    decreases n,
{
    if n == 0 {
        lemma_all_left(records, records.len());
    } else {
        law_no_record_is_lost(records, requests, (n - 1) as nat);
        lemma_joined_leaves(records, used_by(requests, (n - 1) as nat), request_names(requests[n - 1]));
    }
}

/// Telemetry on its way to the requests that it belongs to.
pub struct TelemetryJoin {
    records: Vec<Option<EngineTelemetryRecord>>,
    groups: TextGroups,
    left: usize,
    requests: usize,
    matched: usize,
    all: Ghost<Seq<EngineTelemetryRecord>>,
    used: Ghost<Set<Seq<char>>>,
}

impl TelemetryJoin {
    /// The records are those read, less the ones that went out.
    pub closed spec fn wf(&self) -> bool {
        let all = self.all@;
        &&& all.len() == self.records@.len()
        &&& forall|i: int|
            0 <= i < all.len() ==> (#[trigger] self.records@[i]) == (if self.used@.contains(all[i].request_id@) {
                None
            } else {
                Some(all[i])
            })
        &&& forall|name: Seq<char>| #[trigger]
            self.groups.under(name) == (if self.used@.contains(name) {
                Seq::empty()
            } else {
                places(record_ids(all), name, all.len())
            })
        &&& self.left == left_over(all, self.used@, all.len())
        &&& self.matched <= self.requests
    }

    /// The records read.
    pub closed spec fn read(&self) -> Seq<EngineTelemetryRecord> {
        self.all@
    }

    /// The names that requests have used.
    pub closed spec fn used_names(&self) -> Set<Seq<char>> {
        self.used@
    }

    /// How many requests have been joined.
    pub closed spec fn request_count(&self) -> nat {
        self.requests as nat
    }

    /// How many requests got a record.
    pub closed spec fn matched_count(&self) -> nat {
        self.matched as nat
    }

    pub fn new() -> (join: Self)
        ensures
            join.wf(),
            join.read() == Seq::<EngineTelemetryRecord>::empty(),
            join.used_names() == Set::<Seq<char>>::empty(),
            join.request_count() == 0,
            join.matched_count() == 0,
    {
        TelemetryJoin {
            records: Vec::new(),
            groups: TextGroups::new(),
            left: 0,
            requests: 0,
            matched: 0,
            all: Ghost(Seq::empty()),
            used: Ghost(Set::empty()),
        }
    }

    /// Reads a record of the file at `path`. All telemetry is read before requests are joined.
    pub fn add(&mut self, path: &String, record: EngineTelemetryRecord) -> (result: Result<(), TelemetryError>)
        requires
            old(self).wf(),
            old(self).used_names() == Set::<Seq<char>>::empty(),
            old(self).read().len() < usize::MAX,
        ensures
            final(self).wf(),
            final(self).used_names() == old(self).used_names(),
            final(self).request_count() == old(self).request_count(),
            final(self).matched_count() == old(self).matched_count(),
            match result {
                Ok(()) => record_failure(record, *path) is None && final(self).read() == old(self).read().push(record),
                Err(error) => record_failure(record, *path) == Some(error) && final(self).read() == old(self).read(),
            },
    {
        match validate_record(&record, path) {
            Some(error) => return Err(error),
            None => {},
        }
        let at: usize = self.records.len();
        let ghost before = self.all@;
        let ghost after = before.push(record);
        self.groups.push(record.request_id.as_str(), at);
        self.records.push(Some(record));
        proof {
            lemma_all_left(before, before.len());
            lemma_all_left(after, after.len());
            assert forall|name: Seq<char>| #[trigger] self.groups.under(name) == places(
                record_ids(after),
                name,
                after.len(),
            ) by {
                lemma_prefix_places(before, record, name, before.len());
                assert(record_ids(after)[at as int] == Some(record.request_id@));
            }
        }
        self.left = self.left + 1;
        self.all = Ghost(after);
        Ok(())
    }

    /// Takes out the records under a name.
    fn take_named(&mut self, name: &str) -> (telemetry: Vec<EngineTelemetryRecord>)
        requires
            old(self).wf(),
        ensures
            final(self).wf(),
            final(self).read() == old(self).read(),
            final(self).used_names() == old(self).used_names().insert(name@),
            final(self).request_count() == old(self).request_count(),
            final(self).matched_count() == old(self).matched_count(),
            telemetry@ == taken(old(self).read(), old(self).used_names(), name@),
    {
        let ghost all = self.all@;
        let ghost used = self.used@;
        let ghost before = self.records@;
        let list = self.groups.take(name);
        proof {
            assert(self.records@.len() == self.records.len());
            lemma_places(record_ids(all), name@, all.len());
            lemma_left_over(all, used, name@, all.len());
        }
        proof {
            assert forall|m: int| 0 <= m < list@.len() implies (#[trigger] list@[m]) < before.len() && before[list@[m] as int]
                == Some(all[list@[m] as int]) by {
                let i = list@[m] as int;
                assert(record_ids(all)[i] == Some(name@));
                assert(before[i] == Some(all[i]));
            }
        }
        let telemetry = take_out(&mut self.records, &list);
        proof {
            assert(telemetry@ =~= taken(all, used, name@));
            assert forall|i: int| 0 <= i < all.len() implies (#[trigger] self.records@[i]) == (if used.insert(name@).contains(
                all[i].request_id@,
            ) {
                None
            } else {
                Some(all[i])
            }) by {
                assert(record_ids(all)[i] == Some(all[i].request_id@));
                if all[i].request_id@ == name@ && !used.contains(name@) {
                    assert(list@.contains(i as usize));
                } else if list@.contains(i as usize) {
                    let m = list@.index_of(i as usize);
                    assert(record_ids(all)[list@[m] as int] == Some(name@));
                }
            }
        }
        self.left = self.left - list.len();
        self.used = Ghost(used.insert(name@));
        telemetry
    }

    /// Takes out the records that go to a request.
    pub fn join(&mut self, request: &RequestResult) -> (telemetry: Vec<EngineTelemetryRecord>)
        requires
            old(self).wf(),
            old(self).request_count() < usize::MAX,
        ensures
            final(self).wf(),
            final(self).read() == old(self).read(),
            final(self).used_names() == used_after(old(self).used_names(), request_names(*request)),
            telemetry@ == joined(old(self).read(), old(self).used_names(), request_names(*request)),
            final(self).request_count() == old(self).request_count() + 1,
            final(self).matched_count() == old(self).matched_count() + (if telemetry@.len() > 0 {
                1int
            } else {
                0
            }),
    {
        let ghost all = self.all@;
        let ghost used = self.used@;
        let ghost first = seq![request.replay_request_id@];
        proof {
            reveal_with_fuel(joined, 2);
            reveal_with_fuel(used_after, 2);
            assert(first.drop_last() =~= Seq::<Seq<char>>::empty());
        }
        let mut telemetry = self.take_named(request.replay_request_id.as_str());
        assert(telemetry@ =~= joined(all, used, first));
        let ghost mut names = first;
        if let Some(name) = &request.source_x_request_id {
            let mut more = self.take_named(name.as_str());
            telemetry.append(&mut more);
            proof {
                names = first.push(name@);
                assert(names.drop_last() =~= first);
            }
        }
        assert(telemetry@ =~= joined(all, used, names));
        assert(self.used@ == used_after(used, names));
        let mut more = self.take_named(request.source_request_id.as_str());
        telemetry.append(&mut more);
        proof {
            assert(names.push(request.source_request_id@).drop_last() =~= names);
            assert(request_names(*request) =~= names.push(request.source_request_id@));
        }
        self.requests = self.requests + 1;
        if telemetry.len() > 0 {
            self.matched = self.matched + 1;
        }
        telemetry
    }

    /// What the join has come to.
    pub fn finish(self, output: String) -> (summary: TelemetryJoinSummary)
        requires
            self.wf(),
        ensures
            summary.request_records == self.request_count(),
            summary.matched_requests == self.matched_count(),
            summary.unmatched_requests == self.request_count() - self.matched_count(),
            summary.telemetry_records == self.read().len(),
            summary.unmatched_telemetry_records == left_over(self.read(), self.used_names(), self.read().len()),
            summary.output == output,
    {
        TelemetryJoinSummary {
            request_records: self.requests,
            matched_requests: self.matched,
            unmatched_requests: self.requests - self.matched,
            telemetry_records: self.records.len(),
            unmatched_telemetry_records: self.left,
            output,
        }
    }
}

/// Moves the listed records out.
fn take_out(records: &mut Vec<Option<EngineTelemetryRecord>>, list: &Vec<usize>) -> (telemetry: Vec<EngineTelemetryRecord>)
    requires
        forall|m: int|
            0 <= m < list@.len() ==> (#[trigger] list@[m]) < old(records)@.len() && old(records)@[list@[m] as int] is Some,
        forall|j: int, m: int| 0 <= j < m < list@.len() ==> (#[trigger] list@[j]) < (#[trigger] list@[m]),
    ensures
        telemetry@.len() == list@.len(),
        forall|m: int|
            0 <= m < list@.len() ==> Some(#[trigger] telemetry@[m]) == old(records)@[list@[m] as int],
        final(records)@.len() == old(records)@.len(),
        forall|i: int|
            0 <= i < old(records)@.len() ==> (#[trigger] final(records)@[i]) == (if list@.contains(i as usize) {
                None
            } else {
                old(records)@[i]
            }),
{
    let ghost before = records@;
    let mut telemetry: Vec<EngineTelemetryRecord> = Vec::with_capacity(list.len());
    let mut k: usize = 0;
    while k < list.len()
        invariant
            k <= list@.len(),
            telemetry@.len() == k,
            records@.len() == before.len(),
            forall|m: int|
                0 <= m < list@.len() ==> (#[trigger] list@[m]) < before.len() && before[list@[m] as int] is Some,
            forall|j: int, m: int| 0 <= j < m < list@.len() ==> (#[trigger] list@[j]) < (#[trigger] list@[m]),
            forall|m: int| 0 <= m < k ==> Some(#[trigger] telemetry@[m]) == before[list@[m] as int],
            forall|i: int|
                0 <= i < before.len() ==> (#[trigger] records@[i]) == (if list@.take(k as int).contains(i as usize) {
                    None
                } else {
                    before[i]
                }),
        decreases list@.len() - k,
    {
        let at = list[k];
        let ghost held = records@;
        let mut slot: Option<EngineTelemetryRecord> = None;
        std::mem::swap(&mut slot, &mut records[at]);
        proof {
            if list@.take(k as int).contains(at) {
                let m = list@.take(k as int).index_of(at);
                assert(list@[m] == at);
                assert(list@[m] < list@[k as int]);
            }
        }
        assert(slot == before[at as int]);
        if let Some(record) = slot {
            telemetry.push(record);
        }
        proof {
            let next = list@.take(k + 1);
            let now = list@.take(k as int);
            assert(next =~= now.push(at));
            assert(records@.len() == records.len());
            assert forall|i: int| 0 <= i < before.len() implies (#[trigger] records@[i]) == (if next.contains(i as usize) {
                None
            } else {
                before[i]
            }) by {
                if i == at {
                    assert(next[k as int] == at);
                } else if next.contains(i as usize) {
                    let m = next.index_of(i as usize);
                    assert(now[m] == i as usize);
                    assert(held[i] is None);
                } else {
                    if now.contains(i as usize) {
                        let m = now.index_of(i as usize);
                        assert(next[m] == i as usize);
                    }
                    assert(held[i] == before[i]);
                }
            }
        }
        k += 1;
    }
    assert(list@.take(list@.len() as int) =~= list@);
    telemetry
}

proof fn lemma_prefix_places(
    records: Seq<EngineTelemetryRecord>,
    record: EngineTelemetryRecord,
    name: Seq<char>,
    n: nat,
)
    requires
        n <= records.len(),
    ensures
        places(record_ids(records.push(record)), name, n) == places(record_ids(records), name, n),
    decreases n,
{
    if n > 0 {
        lemma_prefix_places(records, record, name, (n - 1) as nat);
        assert(record_ids(records.push(record))[n - 1] == record_ids(records)[n - 1]);
    }
}

/// The records of the first `n` files, in order.
pub open spec fn all_records(files: Seq<(String, Vec<EngineTelemetryRecord>)>, n: nat) -> Seq<EngineTelemetryRecord>
    decreases n,
{
    if n == 0 {
        Seq::empty()
    } else {
        all_records(files, (n - 1) as nat) + files[n - 1].1@
    }
}

/// What is wrong with the first `n` records of a file.
pub open spec fn file_failure(file: (String, Vec<EngineTelemetryRecord>), n: nat) -> Option<TelemetryError>
    decreases n,
{
    if n == 0 {
        None
    } else {
        match file_failure(file, (n - 1) as nat) {
            Some(error) => Some(error),
            None => record_failure(file.1@[n - 1], file.0),
        }
    }
}

/// What is wrong with the records of the first `n` files.
pub open spec fn files_failure(files: Seq<(String, Vec<EngineTelemetryRecord>)>, n: nat) -> Option<TelemetryError>
    decreases n,
{
    if n == 0 {
        None
    } else {
        match files_failure(files, (n - 1) as nat) {
            Some(error) => Some(error),
            None => file_failure(files[n - 1], files[n - 1].1@.len()),
        }
    }
}

proof fn lemma_file_fails(file: (String, Vec<EngineTelemetryRecord>), n: nat, error: TelemetryError)
    requires
        n < file.1@.len(),
        file_failure(file, n + 1) == Some(error),
    ensures
        file_failure(file, file.1@.len()) == Some(error),
    decreases file.1@.len() - n,
{
    if n + 1 < file.1@.len() {
        assert(file_failure(file, n + 2) == Some(error));
        lemma_file_fails(file, n + 1, error);
    }
}

proof fn lemma_files_fail(files: Seq<(String, Vec<EngineTelemetryRecord>)>, n: nat, error: TelemetryError)
    requires
        n < files.len(),
        files_failure(files, n + 1) == Some(error),
    ensures
        files_failure(files, files.len()) == Some(error),
    decreases files.len() - n,
{
    if n + 1 < files.len() {
        assert(files_failure(files, n + 2) == Some(error));
        lemma_files_fail(files, n + 1, error);
    }
}

proof fn lemma_records_grow(files: Seq<(String, Vec<EngineTelemetryRecord>)>, n: nat, m: nat)
    requires
        n <= m,
    ensures
        all_records(files, n).len() <= all_records(files, m).len(),
    decreases m,
{
    if n < m {
        lemma_records_grow(files, n, (m - 1) as nat);
    }
}

/// Reads the records of a file.
fn add_file(
    join: &mut TelemetryJoin,
    file: (String, Vec<EngineTelemetryRecord>),
) -> (result: Result<(), TelemetryError>)
    requires
        old(join).wf(),
        old(join).used_names() == Set::<Seq<char>>::empty(),
        old(join).read().len() + file.1@.len() <= usize::MAX,
    ensures
        match result {
            Ok(()) => {
                &&& file_failure(file, file.1@.len()) is None
                &&& final(join).wf()
                &&& final(join).used_names() == old(join).used_names()
                &&& final(join).request_count() == old(join).request_count()
                &&& final(join).matched_count() == old(join).matched_count()
                &&& final(join).read() == old(join).read() + file.1@
            },
            Err(error) => file_failure(file, file.1@.len()) == Some(error),
        },
{
    let ghost whole = file;
    let ghost start = join.read();
    let ghost requests = join.request_count();
    let ghost matched = join.matched_count();
    let (path, records) = file;
    assert(start + whole.1@.take(0) =~= start);
    for record in it: records
        invariant
            it.seq() == whole.1@,
            whole == file,
            path == whole.0,
            start.len() + whole.1@.len() <= usize::MAX,
            file_failure(whole, it.index() as nat) is None,
            join.wf(),
            join.used_names() == Set::<Seq<char>>::empty(),
            join.request_count() == requests,
            join.matched_count() == matched,
            join.read() == start + whole.1@.take(it.index()),
    {
        proof {
            assert(whole.1@.take(it.index() + 1) =~= whole.1@.take(it.index()).push(record));
        }
        match join.add(&path, record) {
            Ok(()) => {},
            Err(error) => {
                proof {
                    lemma_file_fails(whole, it.index() as nat, error);
                }
                return Err(error);
            },
        }
        assert(join.read() =~= start + whole.1@.take(it.index() + 1));
    }
    assert(whole.1@.take(whole.1@.len() as int) =~= whole.1@);
    Ok(())
}

/// `summary` is that of joining `records` with `requests`.
pub open spec fn is_summary(
    summary: TelemetryJoinSummary,
    records: Seq<EngineTelemetryRecord>,
    requests: Seq<RequestResult>,
    output: String,
) -> bool {
    let matched = matched_of(records, requests, requests.len());
    &&& summary.request_records == requests.len()
    &&& summary.matched_requests == matched
    &&& summary.unmatched_requests == requests.len() - matched
    &&& summary.telemetry_records == records.len()
    &&& summary.unmatched_telemetry_records == left_over(records, used_by(requests, requests.len()), records.len())
    &&& summary.output == output
}

/// Joins the telemetry of some files, each with its path, with request results. Every record goes
/// to the first request that goes by its name.
pub fn join_engine_telemetry(
    requests: &Vec<RequestResult>,
    files: Vec<(String, Vec<EngineTelemetryRecord>)>,
    output: String,
) -> (result: Result<(Vec<Vec<EngineTelemetryRecord>>, TelemetryJoinSummary), TelemetryError>)
    requires
        all_records(files@, files@.len()).len() <= usize::MAX,
    ensures
        match result {
            Ok((telemetry, summary)) => {
                let records = all_records(files@, files@.len());
                &&& files@.len() > 0
                &&& files_failure(files@, files@.len()) is None
                &&& telemetry@.len() == requests@.len()
                &&& forall|i: int|
                    0 <= i < requests@.len() ==> (#[trigger] telemetry@[i])@ == telemetry_of(records, requests@, i)
                &&& is_summary(summary, records, requests@, output)
            },
            Err(error) => if files@.len() == 0 {
                error is NoFiles
            } else {
                files_failure(files@, files@.len()) == Some(error)
            },
        },
{
    if files.len() == 0 {
        return Err(TelemetryError::NoFiles);
    }
    let ghost sources = files@;
    let mut join = TelemetryJoin::new();
    for file in it: files
        invariant
            it.seq() == sources,
            all_records(sources, sources.len()).len() <= usize::MAX,
            files_failure(sources, it.index() as nat) is None,
            join.wf(),
            join.used_names() == Set::<Seq<char>>::empty(),
            join.request_count() == 0,
            join.matched_count() == 0,
            join.read() == all_records(sources, it.index() as nat),
    {
        proof {
            assert(file == sources[it.index()]);
            lemma_records_grow(sources, (it.index() + 1) as nat, sources.len());
        }
        match add_file(&mut join, file) {
            Ok(()) => {},
            Err(error) => {
                proof {
                    lemma_files_fail(sources, it.index() as nat, error);
                }
                return Err(error);
            },
        }
    }
    let ghost records = all_records(sources, sources.len());
    let mut telemetry: Vec<Vec<EngineTelemetryRecord>> = Vec::with_capacity(requests.len());
    let mut i: usize = 0;
    while i < requests.len()
        invariant
            i <= requests@.len(),
            telemetry@.len() == i,
            join.wf(),
            join.read() == records,
            join.used_names() == used_by(requests@, i as nat),
            join.request_count() == i,
            join.matched_count() == matched_of(records, requests@, i as nat),
            forall|k: int| 0 <= k < i ==> (#[trigger] telemetry@[k])@ == telemetry_of(records, requests@, k),
        decreases requests@.len() - i,
    {
        telemetry.push(join.join(&requests[i]));
        i += 1;
    }
    let summary = join.finish(output);
    Ok((telemetry, summary))
}

} // verus!
