//! Stable ready-time scheduling shared by recorded and generated workloads.

use crate::ordered::{is_sorted, MinHeap, Ranked};
use vstd::multiset::Multiset;
use vstd::prelude::*;

verus! {

/// One item released by [`ReadyQueue`].
#[derive(Debug)]
pub struct ReadyItem<T> {
    pub ready_at_ns: u64,
    pub ordinal: usize,
    pub value: T,
}

impl<T> Ranked for ReadyItem<T> {
    /// By ready time, then by source ordinal.
    open spec fn ranks_before(self, other: Self) -> bool {
        self.ready_at_ns < other.ready_at_ns || (self.ready_at_ns == other.ready_at_ns && self.ordinal
            <= other.ordinal)
    }

    proof fn rank_total(a: Self, b: Self) {
    }

    proof fn rank_transitive(a: Self, b: Self, c: Self) {
    }

    fn precedes(&self, other: &Self) -> (result: bool) {
        self.ready_at_ns < other.ready_at_ns || (self.ready_at_ns == other.ready_at_ns && self.ordinal
            <= other.ordinal)
    }
}

/// Min-priority queue by ready time, then source ordinal.
pub struct ReadyQueue<T> {
    heap: MinHeap<ReadyItem<T>>,
}

impl<T> View for ReadyQueue<T> {
    type V = Multiset<ReadyItem<T>>;

    closed spec fn view(&self) -> Multiset<ReadyItem<T>> {
        self.heap@
    }
}

/// What [`ReadyQueue::pop_due`] takes out of `queued`: `released` is sorted and due, holds no
/// more than `limit` items, and stops short of `limit` only where nothing due is left; what
/// stays comes no earlier than anything released.
pub open spec fn releases<T>(
    queued: Multiset<ReadyItem<T>>,
    now_ns: u64,
    limit: nat,
    released: Seq<ReadyItem<T>>,
    kept: Multiset<ReadyItem<T>>,
) -> bool {
    &&& kept.add(released.to_multiset()) == queued
    &&& is_sorted(released)
    &&& forall|i: int| 0 <= i < released.len() ==> (#[trigger] released[i]).ready_at_ns <= now_ns
    &&& released.len() <= limit
    &&& released.len() < limit ==> forall|item: ReadyItem<T>| #[trigger]
        kept.count(item) > 0 ==> item.ready_at_ns > now_ns
    &&& forall|i: int, item: ReadyItem<T>|
        0 <= i < released.len() && #[trigger] kept.count(item) > 0 ==> (#[trigger] released[i]).ranks_before(item)
}

impl<T> ReadyQueue<T> {
    pub fn with_capacity(capacity: usize) -> (queue: Self)
        ensures
            queue@ == Multiset::<ReadyItem<T>>::empty(),
    {
        ReadyQueue { heap: MinHeap::with_capacity(capacity) }
    }

    pub fn push(&mut self, ready_at_ns: u64, ordinal: usize, value: T)
        ensures
            final(self)@ == old(self)@.insert(ReadyItem { ready_at_ns, ordinal, value }),
    {
        self.heap.push(ReadyItem { ready_at_ns, ordinal, value });
    }

    /// The earliest ready time in the queue.
    pub fn next_ready_at_ns(&self) -> (ready: Option<u64>)
        ensures
            match ready {
                Some(at) => (exists|item: ReadyItem<T>| #[trigger]
                    self@.count(item) > 0 && item.ready_at_ns == at) && forall|item: ReadyItem<T>| #[trigger]
                    self@.count(item) > 0 ==> at <= item.ready_at_ns,
                None => self@ == Multiset::<ReadyItem<T>>::empty(),
            },
    {
        match self.heap.peek() {
            Some(item) => {
                assert(self@.count(*item) > 0);
                Some(item.ready_at_ns)
            },
            None => None,
        }
    }

    /// Takes out the items that are due at `now_ns`, earliest first, at most `limit` of them.
    pub fn pop_due(&mut self, now_ns: u64, limit: usize) -> (ready: Vec<ReadyItem<T>>)
        ensures
            releases(old(self)@, now_ns, limit as nat, ready@, final(self)@),
    {
        broadcast use vstd::multiset::group_multiset_axioms;

        let mut ready: Vec<ReadyItem<T>> = Vec::new();
        proof {
            ready@.to_multiset_ensures();
            assert(ready@.to_multiset() =~= Multiset::<ReadyItem<T>>::empty());
            assert(self@.add(ready@.to_multiset()) =~= old(self)@);
        }
        loop
            invariant
                self@.add(ready@.to_multiset()) == old(self)@,
                is_sorted(ready@),
                forall|i: int| 0 <= i < ready@.len() ==> (#[trigger] ready@[i]).ready_at_ns <= now_ns,
                ready@.len() <= limit,
                forall|i: int, item: ReadyItem<T>|
                    0 <= i < ready@.len() && #[trigger] self@.count(item) > 0 ==> (
                    #[trigger] ready@[i]).ranks_before(item),
            ensures
                ready@.len() < limit ==> forall|item: ReadyItem<T>| #[trigger]
                    self@.count(item) > 0 ==> item.ready_at_ns > now_ns,
            decreases limit - ready@.len(),
        {
            if ready.len() >= limit {
                break;
            }
            let due = match self.heap.peek() {
                Some(item) => item.ready_at_ns <= now_ns,
                None => false,
            };
            if !due {
                break;
            }
            let ghost held = self@;
            let ghost done = ready@;
            if let Some(item) = self.heap.pop() {
                ready.push(item);
                proof {
                    done.to_multiset_ensures();
                    assert(self@.add(ready@.to_multiset()) =~= held.add(done.to_multiset()));
                    assert forall|i: int, other: ReadyItem<T>|
                        0 <= i < ready@.len() && #[trigger] self@.count(other) > 0 implies (
                    #[trigger] ready@[i]).ranks_before(other) by {
                        assert(held.count(other) > 0);
                        if i < done.len() {
                            assert(ready@[i] == done[i]);
                        }
                    }
                }
            }
        }
        ready
    }

    pub fn is_empty(&self) -> (empty: bool)
        ensures
            empty == (self@ == Multiset::<ReadyItem<T>>::empty()),
    {
        broadcast use vstd::multiset::group_multiset_axioms;

        let empty = self.heap.len() == 0;
        proof {
            if empty {
                assert(self@ =~= Multiset::<ReadyItem<T>>::empty());
            }
        }
        empty
    }
}

} // verus!
