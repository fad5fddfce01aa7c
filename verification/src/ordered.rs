//! A binary min-heap over any ranked type, and the sort it gives.

use vstd::multiset::Multiset;
use vstd::prelude::*;

verus! {

/// A type with a total preorder.
pub trait Ranked: Sized {
    /// `self` comes at or before `other`.
    spec fn ranks_before(self, other: Self) -> bool;

    proof fn rank_total(a: Self, b: Self)
        ensures
            a.ranks_before(b) || b.ranks_before(a),
    ;

    proof fn rank_transitive(a: Self, b: Self, c: Self)
        requires
            a.ranks_before(b),
            b.ranks_before(c),
        ensures
            a.ranks_before(c),
    ;

    fn precedes(&self, other: &Self) -> (result: bool)
        ensures
            result == self.ranks_before(*other),
    ;
}

/// Every item comes at or before the ones after it.
pub open spec fn is_sorted<T: Ranked>(items: Seq<T>) -> bool {
    forall|i: int, j: int|
        0 <= i < j < items.len() ==> (#[trigger] items[i]).ranks_before(#[trigger] items[j])
}

spec fn parent(i: int) -> int {
    (i - 1) / 2
}

spec fn in_order<T: Ranked>(items: Seq<T>, i: int) -> bool {
    items[parent(i)].ranks_before(items[i])
}

spec fn is_heap<T: Ranked>(items: Seq<T>) -> bool {
    forall|i: int| 0 < i < items.len() ==> #[trigger] in_order(items, i)
}

/// The grandparent of each child of `k` comes at or before that child.
spec fn bridges<T: Ranked>(items: Seq<T>, k: int) -> bool {
    k > 0 ==> forall|i: int|
        0 < i < items.len() && #[trigger] parent(i) == k ==> items[parent(k)].ranks_before(items[i])
}

proof fn lemma_root_is_least<T: Ranked>(items: Seq<T>, i: int)
    requires
        is_heap(items),
        0 <= i < items.len(),
    ensures
        items[0].ranks_before(items[i]),
    decreases i,
{
    if i == 0 {
        T::rank_total(items[0], items[0]);
    } else {
        lemma_root_is_least(items, parent(i));
        assert(in_order(items, i));
        T::rank_transitive(items[0], items[parent(i)], items[i]);
    }
}

proof fn lemma_swap_multiset<T>(items: Seq<T>, i: int, j: int)
    requires
        0 <= i < items.len(),
        0 <= j < items.len(),
    ensures
        items.update(i, items[j]).update(j, items[i]).to_multiset() == items.to_multiset(),
{
    broadcast use vstd::multiset::group_multiset_axioms;

    vstd::seq_lib::to_multiset_update(items, i, items[j]);
    let half = items.update(i, items[j]);
    vstd::seq_lib::to_multiset_update(half, j, items[i]);
    items.to_multiset_ensures();
    assert(items.contains(items[i]));
    assert(items.contains(items[j]));
    assert(half.update(j, items[i]).to_multiset() =~= items.to_multiset());
}

fn swap_items<T>(items: &mut Vec<T>, i: usize, j: usize)
    requires
        i < j < old(items)@.len(),
    ensures
        final(items)@ == old(items)@.update(i as int, old(items)@[j as int]).update(
            j as int,
            old(items)@[i as int],
        ),
        final(items)@.to_multiset() == old(items)@.to_multiset(),
{
    proof {
        lemma_swap_multiset(items@, i as int, j as int);
    }
    let (left, right) = items.as_mut_slice().split_at_mut(j);
    std::mem::swap(&mut left[i], &mut right[0]);
    assert(items@ =~= old(items)@.update(i as int, old(items)@[j as int]).update(
        j as int,
        old(items)@[i as int],
    ));
}

fn sift_up<T: Ranked>(items: &mut Vec<T>, start: usize)
    requires
        start < old(items)@.len(),
        forall|i: int| 0 < i < old(items)@.len() && i != start ==> #[trigger] in_order(old(items)@, i),
        bridges(old(items)@, start as int),
    ensures
        is_heap(final(items)@),
        final(items)@.to_multiset() == old(items)@.to_multiset(),
        final(items)@.len() == old(items)@.len(),
{
    let mut k: usize = start;
    while k > 0
        invariant
            k < items@.len(),
            items@.len() == old(items)@.len(),
            items@.to_multiset() == old(items)@.to_multiset(),
            forall|i: int| 0 < i < items@.len() && i != k ==> #[trigger] in_order(items@, i),
            bridges(items@, k as int),
        decreases k,
    {
        let p: usize = (k - 1) / 2;
        assert(p == parent(k as int));
        if items[p].precedes(&items[k]) {
            assert(in_order(items@, k as int));
            return;
        }
        let ghost before = items@;
        proof {
            T::rank_total(before[p as int], before[k as int]);
        }
        swap_items(items, p, k);
        proof {
            assert forall|i: int| 0 < i < items@.len() && i != p implies #[trigger] in_order(items@, i) by {
                if i == k {
                } else {
                    assert(in_order(before, i));
                    if parent(i) == k {
                    } else if parent(i) == p {
                        T::rank_transitive(before[k as int], before[p as int], before[i]);
                    }
                }
            }
            if p > 0 {
                assert forall|i: int| 0 < i < items@.len() && #[trigger] parent(i) == p implies
                    items@[parent(p as int)].ranks_before(items@[i]) by {
                    assert(in_order(before, p as int));
                    if i != k {
                        assert(in_order(before, i));
                        T::rank_transitive(before[parent(p as int)], before[p as int], before[i]);
                    }
                }
            }
        }
        k = p;
    }
}

fn sift_down<T: Ranked>(items: &mut Vec<T>, start: usize)
    requires
        start < old(items)@.len(),
        forall|i: int|
            0 < i < old(items)@.len() && parent(i) != start ==> #[trigger] in_order(old(items)@, i),
        bridges(old(items)@, start as int),
    ensures
        is_heap(final(items)@),
        final(items)@.to_multiset() == old(items)@.to_multiset(),
        final(items)@.len() == old(items)@.len(),
{
    let mut k: usize = start;
    let n: usize = items.len();
    while k < n / 2
        invariant
            n == items@.len(),
            k < n,
            items@.len() == old(items)@.len(),
            items@.to_multiset() == old(items)@.to_multiset(),
            forall|i: int| 0 < i < items@.len() && parent(i) != k ==> #[trigger] in_order(items@, i),
            bridges(items@, k as int),
        decreases n - k,
    {
        let left: usize = 2 * k + 1;
        let mut child: usize = left;
        if left + 1 < n && items[left + 1].precedes(&items[left]) {
            child = left + 1;
        }
        let ghost before = items@;
        proof {
            T::rank_total(before[left as int], before[child as int]);
            if left + 1 < n {
                T::rank_total(before[left + 1], before[left as int]);
                T::rank_total(before[left + 1], before[child as int]);
            }
            assert forall|i: int| 0 < i < n && #[trigger] parent(i) == k implies before[child as int].ranks_before(
                before[i],
            ) by {
                assert(i == left || i == left + 1);
            }
            assert(parent(child as int) == k);
        }
        if items[k].precedes(&items[child]) {
            proof {
                assert forall|i: int| 0 < i < n implies #[trigger] in_order(items@, i) by {
                    if parent(i) == k {
                        T::rank_transitive(items@[k as int], items@[child as int], items@[i]);
                    }
                }
            }
            return;
        }
        proof {
            T::rank_total(before[k as int], before[child as int]);
        }
        swap_items(items, k, child);
        proof {
            assert forall|i: int| 0 < i < n && parent(i) != child implies #[trigger] in_order(items@, i) by {
                if parent(i) == k {
                } else {
                    assert(in_order(before, i));
                    if i == k {
                        assert(before[parent(k as int)].ranks_before(before[child as int]));
                    }
                }
            }
            assert forall|i: int| 0 < i < n && #[trigger] parent(i) == child implies
                items@[parent(child as int)].ranks_before(items@[i]) by {
                assert(in_order(before, i));
            }
        }
        k = child;
    }
    proof {
        assert forall|i: int| 0 < i < items@.len() implies #[trigger] in_order(items@, i) by {
            assert(parent(i) != k);
        }
    }
}

/// A priority queue that gives out a least item first.
pub struct MinHeap<T: Ranked> {
    items: Vec<T>,
}

impl<T: Ranked> View for MinHeap<T> {
    type V = Multiset<T>;

    closed spec fn view(&self) -> Multiset<T> {
        self.items@.to_multiset()
    }
}

impl<T: Ranked> MinHeap<T> {
    #[verifier::type_invariant]
    spec fn well_formed(self) -> bool {
        is_heap(self.items@)
    }

    pub fn with_capacity(capacity: usize) -> (heap: Self)
        ensures
            heap@ == Multiset::<T>::empty(),
    {
        let heap = MinHeap { items: Vec::with_capacity(capacity) };
        proof {
            heap.items@.to_multiset_ensures();
            assert(heap@ =~= Multiset::<T>::empty());
        }
        heap
    }

    pub fn len(&self) -> (count: usize)
        ensures
            count == self@.len(),
    {
        proof {
            self.items@.to_multiset_ensures();
        }
        self.items.len()
    }

    /// A least item, left in place.
    pub fn peek(&self) -> (least: Option<&T>)
        ensures
            match least {
                Some(item) => self@.count(*item) > 0 && forall|other: T| #[trigger]
                    self@.count(other) > 0 ==> item.ranks_before(other),
                None => self@ == Multiset::<T>::empty(),
            },
    {
        proof {
            use_type_invariant(self);
            self.items@.to_multiset_ensures();
        }
        if self.items.len() == 0 {
            assert(self@ =~= Multiset::<T>::empty());
            None
        } else {
            proof {
                assert(self.items@.contains(self.items@[0]));
                assert forall|other: T| #[trigger] self@.count(other) > 0 implies self.items@[0].ranks_before(
                    other,
                ) by {
                    let i = self.items@.index_of(other);
                    lemma_root_is_least(self.items@, i);
                }
            }
            Some(&self.items[0])
        }
    }

    pub fn push(&mut self, item: T)
        ensures
            final(self)@ == old(self)@.insert(item),
    {
        proof {
            use_type_invariant(&*self);
        }
        let mut items: Vec<T> = Vec::new();
        std::mem::swap(&mut items, &mut self.items);
        let ghost before = items@;
        items.push(item);
        let last: usize = items.len() - 1;
        proof {
            before.to_multiset_ensures();
            assert forall|i: int| 0 < i < items@.len() && i != last implies #[trigger] in_order(items@, i) by {
                assert(in_order(before, i));
            }
        }
        sift_up(&mut items, last);
        self.items = items;
    }

    /// Takes out a least item.
    pub fn pop(&mut self) -> (least: Option<T>)
        ensures
            match least {
                Some(item) => {
                    &&& old(self)@.count(item) > 0
                    &&& final(self)@ == old(self)@.remove(item)
                    &&& forall|other: T| #[trigger]
                        old(self)@.count(other) > 0 ==> item.ranks_before(other)
                },
                None => old(self)@ == Multiset::<T>::empty() && final(self)@ == old(self)@,
            },
    {
        proof {
            use_type_invariant(&*self);
            self.items@.to_multiset_ensures();
        }
        let mut items: Vec<T> = Vec::new();
        std::mem::swap(&mut items, &mut self.items);
        if items.len() == 0 {
            self.items = items;
            assert(self@ =~= Multiset::<T>::empty());
            return None;
        }
        let ghost before = items@;
        let least = items.swap_remove(0);
        proof {
            broadcast use vstd::multiset::group_multiset_axioms;

            assert(before.contains(before[0]));
            assert forall|other: T| #[trigger] before.to_multiset().count(other) > 0 implies before[0].ranks_before(
                other,
            ) by {
                let i = before.index_of(other);
                lemma_root_is_least(before, i);
            }
            let moved = before.update(0, before.last());
            vstd::seq_lib::to_multiset_update(before, 0, before.last());
            vstd::seq_lib::to_multiset_remove(moved, moved.len() - 1);
            assert(moved.remove(moved.len() - 1) =~= items@);
            assert(moved[moved.len() - 1] == before.last());
            assert(items@.to_multiset() =~= before.to_multiset().remove(before[0]));
        }
        if items.len() > 0 {
            proof {
                assert forall|i: int| 0 < i < items@.len() && parent(i) != 0 implies #[trigger] in_order(
                    items@,
                    i,
                ) by {
                    assert(in_order(before, i));
                }
            }
            sift_down(&mut items, 0);
        }
        self.items = items;
        Some(least)
    }
}

/// Sorts `items`; the relative order of items of equal rank is left open.
pub fn sort<T: Ranked>(items: Vec<T>) -> (sorted: Vec<T>)
    ensures
        is_sorted(sorted@),
        sorted@.to_multiset() == items@.to_multiset(),
        sorted@.len() == items@.len(),
{
    let ghost all = items@;
    let mut items = items;
    let mut heap: MinHeap<T> = MinHeap::with_capacity(items.len());
    proof {
        broadcast use vstd::multiset::group_multiset_axioms;

        items@.to_multiset_ensures();
        assert(heap@.add(items@.to_multiset()) =~= all.to_multiset());
    }
    while items.len() > 0
        invariant
            heap@.add(items@.to_multiset()) == all.to_multiset(),
        decreases items@.len(),
    {
        let ghost before = items@;
        let ghost held = heap@;
        proof {
            before.to_multiset_ensures();
            assert(before.contains(before.last()));
        }
        if let Some(item) = items.pop() {
            heap.push(item);
            proof {
                broadcast use vstd::multiset::group_multiset_axioms;

                assert(items@ =~= before.remove(before.len() - 1));
                assert(heap@.add(items@.to_multiset()) =~= held.add(before.to_multiset()));
            }
        }
    }
    proof {
        broadcast use vstd::multiset::group_multiset_axioms;

        items@.to_multiset_ensures();
        assert(items@.to_multiset() =~= Multiset::<T>::empty());
        assert(heap@ =~= all.to_multiset());
    }
    let mut sorted: Vec<T> = Vec::with_capacity(heap.len());
    proof {
        broadcast use vstd::multiset::group_multiset_axioms;

        sorted@.to_multiset_ensures();
        assert(sorted@.to_multiset() =~= Multiset::<T>::empty());
        assert(heap@.add(sorted@.to_multiset()) =~= all.to_multiset());
    }
    loop
        invariant
            heap@.add(sorted@.to_multiset()) == all.to_multiset(),
            is_sorted(sorted@),
            forall|i: int, other: T|
                0 <= i < sorted@.len() && #[trigger] heap@.count(other) > 0 ==> (
                #[trigger] sorted@[i]).ranks_before(other),
        ensures
            heap@ == Multiset::<T>::empty(),
        decreases heap@.len(),
    {
        let ghost held = heap@;
        let ghost done = sorted@;
        match heap.pop() {
            None => {
                break;
            },
            Some(item) => {
                sorted.push(item);
                proof {
                    broadcast use vstd::multiset::group_multiset_axioms;

                    done.to_multiset_ensures();
                    assert(heap@.add(sorted@.to_multiset()) =~= held.add(done.to_multiset()));
                    assert forall|i: int, other: T|
                        0 <= i < sorted@.len() && #[trigger] heap@.count(other) > 0 implies (
                    #[trigger] sorted@[i]).ranks_before(other) by {
                        assert(held.count(other) > 0);
                        if i < done.len() {
                            assert(sorted@[i] == done[i]);
                        }
                    }
                }
            },
        }
    }
    proof {
        broadcast use vstd::multiset::group_multiset_axioms;

        assert(sorted@.to_multiset() =~= all.to_multiset());
        sorted@.to_multiset_ensures();
        all.to_multiset_ensures();
    }
    sorted
}

impl Ranked for u64 {
    open spec fn ranks_before(self, other: Self) -> bool {
        self <= other
    }

    proof fn rank_total(a: Self, b: Self) {
    }

    proof fn rank_transitive(a: Self, b: Self, c: Self) {
    }

    fn precedes(&self, other: &Self) -> (result: bool) {
        *self <= *other
    }
}

/// Each number is greater than the ones before it.
pub open spec fn ascending(values: Seq<u64>) -> bool {
    forall|i: int, j: int| 0 <= i < j < values.len() ==> #[trigger] values[i] < #[trigger] values[j]
}

/// Lists the numbers that occur in `values`, each once, from the least up.
pub fn sorted_distinct(values: Vec<u64>) -> (distinct: Vec<u64>)
    ensures
        ascending(distinct@),
        forall|x: u64| #[trigger] distinct@.contains(x) <==> values@.contains(x),
{
    broadcast use vstd::multiset::group_multiset_axioms;

    let sorted = sort(values);
    let mut distinct: Vec<u64> = Vec::new();
    let mut i: usize = 0;
    while i < sorted.len()
        invariant
            i <= sorted@.len(),
            is_sorted(sorted@),
            ascending(distinct@),
            i > 0 ==> distinct@.len() > 0 && distinct@.last() == sorted@[i - 1],
            forall|x: u64| #[trigger] distinct@.contains(x) <==> sorted@.take(i as int).contains(x),
            i == 0 ==> distinct@.len() == 0,
        decreases sorted@.len() - i,
    {
        let value = sorted[i];
        let ghost before = distinct@;
        let fresh = if i > 0 {
            assert(sorted@[i - 1].ranks_before(sorted@[i as int]));
            sorted[i - 1] < value
        } else {
            true
        };
        if fresh {
            distinct.push(value);
        }
        proof {
            assert forall|x: u64| #[trigger] distinct@.contains(x) <==> sorted@.take(i + 1).contains(x) by {
                assert(sorted@.take(i + 1) =~= sorted@.take(i as int).push(value));
                if before.contains(x) {
                    let k = before.index_of(x);
                    assert(distinct@[k] == x);
                    assert(sorted@.take(i as int).contains(x));
                    let m = sorted@.take(i as int).index_of(x);
                    assert(sorted@.take(i + 1)[m] == x);
                }
                if sorted@.take(i + 1).contains(x) {
                    let m = sorted@.take(i + 1).index_of(x);
                    if m < i {
                        assert(sorted@.take(i as int)[m] == x);
                        assert(before.contains(x));
                    } else {
                        assert(x == value);
                        assert(distinct@[distinct@.len() - 1] == value);
                    }
                }
                if distinct@.contains(x) && !before.contains(x) {
                    assert(x == value);
                    assert(sorted@.take(i + 1)[i as int] == value);
                }
            }
        }
        i += 1;
    }
    proof {
        assert(sorted@.take(i as int) =~= sorted@);
        sorted@.to_multiset_ensures();
        values@.to_multiset_ensures();
        assert forall|x: u64| #[trigger] distinct@.contains(x) <==> values@.contains(x) by {
            assert(sorted@.contains(x) <==> sorted@.to_multiset().count(x) > 0);
            assert(values@.contains(x) <==> values@.to_multiset().count(x) > 0);
        }
    }
    distinct
}

/// There is one ascending list of a set of numbers.
pub proof fn lemma_ascending_unique(a: Seq<u64>, b: Seq<u64>)
    requires
        ascending(a),
        ascending(b),
        forall|x: u64| #[trigger] a.contains(x) <==> b.contains(x),
    ensures
        a == b,
    decreases a.len(),
{
    if a.len() == 0 {
        if b.len() > 0 {
            assert(b.contains(b[0]));
            assert(a.contains(b[0]));
        }
        assert(a =~= b);
    } else {
        assert(a.contains(a.last()));
        assert(b.contains(a.last()));
        assert(b.contains(b.last()));
        assert(a.contains(b.last()));
        let i = b.index_of(a.last());
        let j = a.index_of(b.last());
        assert(a.last() <= b.last());
        assert(b.last() <= a.last());
        let sa = a.drop_last();
        let sb = b.drop_last();
        assert forall|x: u64| #[trigger] sa.contains(x) <==> sb.contains(x) by {
            if sa.contains(x) {
                let k = sa.index_of(x);
                assert(a[k] == x);
                assert(a.contains(x));
                let m = b.index_of(x);
                assert(x < a.last());
                assert(m < b.len() - 1);
                assert(sb[m] == x);
            }
            if sb.contains(x) {
                let k = sb.index_of(x);
                assert(b[k] == x);
                assert(b.contains(x));
                assert(a.contains(x));
                let m = a.index_of(x);
                assert(x < b.last());
                assert(m < a.len() - 1);
                assert(sa[m] == x);
            }
        }
        lemma_ascending_unique(sa, sb);
        assert(a =~= sa.push(a.last()));
        assert(b =~= sb.push(b.last()));
    }
}

} // verus!
