//! Dependency lists and the check that they form no cycle.

use vstd::prelude::*;

verus! {

/// Machine indices as integers.
pub open spec fn as_ints(values: Seq<usize>) -> Seq<int> {
    values.map_values(|value: usize| value as int)
}

/// `values` with `value` at the end, unless it is there already.
pub open spec fn with_unique(values: Seq<usize>, value: usize) -> Seq<usize> {
    if values.contains(value) {
        values
    } else {
        values.push(value)
    }
}

/// Appends `value` unless it is there already.
pub fn push_unique(values: &mut Vec<usize>, value: usize)
    ensures
        final(values)@ == with_unique(old(values)@, value),
{
    let mut i: usize = 0;
    while i < values.len()
        invariant
            i <= values@.len(),
            values@ == old(values)@,
            forall|k: int| 0 <= k < i ==> values@[k] != value,
        decreases values@.len() - i,
    {
        if values[i] == value {
            assert(values@.contains(value));
            return;
        }
        i += 1;
    }
    values.push(value);
}

/// The lists as sequences.
pub open spec fn lists(values: Seq<Vec<usize>>) -> Seq<Seq<usize>> {
    values.map_values(|list: Vec<usize>| list@)
}

/// Every dependency is the index of another node.
pub open spec fn is_closed(dependencies: Seq<Seq<usize>>) -> bool {
    forall|i: int, k: int|
        0 <= i < dependencies.len() && 0 <= k < dependencies[i].len() ==> (#[trigger] dependencies[i][k])
            < dependencies.len() && dependencies[i][k] != i
}

/// Entry `k` of list `i` is the index of no other node.
pub open spec fn is_stray(dependencies: Seq<Seq<usize>>, i: int, k: int) -> bool {
    dependencies[i][k] >= dependencies.len() || dependencies[i][k] == i
}

/// Entry `k` of list `i` is the first, list by list, that is the index of no other node.
pub open spec fn is_first_stray(dependencies: Seq<Seq<usize>>, i: int, k: int) -> bool {
    &&& 0 <= i < dependencies.len()
    &&& 0 <= k < dependencies[i].len()
    &&& is_stray(dependencies, i, k)
    &&& forall|j: int, m: int|
        0 <= j < dependencies.len() && 0 <= m < dependencies[j].len() && (j < i || j == i && m < k)
            ==> !#[trigger] is_stray(dependencies, j, m)
}

/// `rank` grows along every dependency.
pub open spec fn ranked_by(dependencies: Seq<Seq<usize>>, rank: spec_fn(int) -> nat) -> bool {
    forall|i: int, k: int|
        0 <= i < dependencies.len() && 0 <= k < dependencies[i].len() ==> rank(
            #[trigger] dependencies[i][k] as int,
        ) < rank(i)
}

/// The nodes can be ranked so that each one comes after all of its dependencies.
pub open spec fn is_acyclic(dependencies: Seq<Seq<usize>>) -> bool {
    exists|rank: spec_fn(int) -> nat| ranked_by(dependencies, rank)
}

spec fn occurrences(list: Seq<usize>, value: int) -> nat
    decreases list.len(),
{
    if list.len() == 0 {
        0
    } else {
        occurrences(list.drop_last(), value) + if list.last() == value {
            1nat
        } else {
            0nat
        }
    }
}

spec fn pending(list: Seq<usize>, done: Set<int>) -> nat
    decreases list.len(),
{
    if list.len() == 0 {
        0
    } else {
        pending(list.drop_last(), done) + if done.contains(list.last() as int) {
            0nat
        } else {
            1nat
        }
    }
}

proof fn lemma_pending_insert(list: Seq<usize>, done: Set<int>, value: int)
    requires
        !done.contains(value),
    ensures
        pending(list, done) == pending(list, done.insert(value)) + occurrences(list, value),
    decreases list.len(),
{
    if list.len() > 0 {
        lemma_pending_insert(list.drop_last(), done, value);
    }
}

proof fn lemma_pending_zero(list: Seq<usize>, done: Set<int>)
    ensures
        pending(list, done) == 0 <==> forall|k: int|
            0 <= k < list.len() ==> done.contains(#[trigger] list[k] as int),
    decreases list.len(),
{
    if list.len() > 0 {
        lemma_pending_zero(list.drop_last(), done);
        if pending(list, done) == 0 {
            assert forall|k: int| 0 <= k < list.len() implies done.contains(#[trigger] list[k] as int) by {
                if k < list.len() - 1 {
                    assert(list.drop_last()[k] == list[k]);
                }
            }
        } else if forall|k: int| 0 <= k < list.len() ==> done.contains(#[trigger] list[k] as int) {
            assert forall|k: int| 0 <= k < list.drop_last().len() implies done.contains(
                #[trigger] list.drop_last()[k] as int,
            ) by {
                assert(list.drop_last()[k] == list[k]);
            }
            assert(done.contains(list[list.len() - 1] as int));
        }
    }
}

proof fn lemma_pending_empty(list: Seq<usize>)
    ensures
        pending(list, Set::<int>::empty()) == list.len(),
    decreases list.len(),
{
    if list.len() > 0 {
        lemma_pending_empty(list.drop_last());
    }
}

proof fn lemma_occurrences_prefix(list: Seq<usize>, n: int, value: int)
    requires
        0 <= n <= list.len(),
    ensures
        occurrences(list.take(n), value) <= occurrences(list, value),
    decreases list.len(),
{
    if n == list.len() {
        assert(list.take(n) =~= list);
    } else {
        assert(list.drop_last().take(n) =~= list.take(n));
        lemma_occurrences_prefix(list.drop_last(), n, value);
    }
}

/// The lists turned round: for each node, the nodes that depend on it.
spec fn is_transposed(dependencies: Seq<Seq<usize>>, dependents: Seq<Seq<usize>>, n: int) -> bool {
    forall|d: int, i: int|
        0 <= d < dependents.len() && 0 <= i < dependencies.len() ==> #[trigger] occurrences(dependents[d], i)
            == if i < n {
            occurrences(dependencies[i], d)
        } else {
            0
        }
}

fn transpose(dependencies: &Vec<Vec<usize>>) -> (dependents: Vec<Vec<usize>>)
    requires
        is_closed(lists(dependencies@)),
    ensures
        dependents@.len() == dependencies@.len(),
        is_transposed(lists(dependencies@), lists(dependents@), dependencies@.len() as int),
        forall|d: int, k: int|
            0 <= d < dependents@.len() && 0 <= k < dependents@[d]@.len() ==> (#[trigger] dependents@[d]@[k])
                < dependencies@.len(),
{
    let n = dependencies.len();
    let mut dependents: Vec<Vec<usize>> = Vec::with_capacity(n);
    while dependents.len() < n
        invariant
            dependents@.len() <= n,
            forall|d: int| 0 <= d < dependents@.len() ==> (#[trigger] dependents@[d])@.len() == 0,
        decreases n - dependents@.len(),
    {
        dependents.push(Vec::new());
    }
    let ghost deps = lists(dependencies@);
    let mut i: usize = 0;
    while i < n
        invariant
            i <= n,
            n == dependencies@.len(),
            n == dependents@.len(),
            deps == lists(dependencies@),
            is_closed(deps),
            is_transposed(deps, lists(dependents@), i as int),
            forall|d: int, k: int|
                0 <= d < dependents@.len() && 0 <= k < dependents@[d]@.len() ==> (#[trigger] dependents@[d]@[k])
                    < n,
        decreases n - i,
    {
        let list = &dependencies[i];
        assert(list@ == deps[i as int]);
        let mut k: usize = 0;
        assert(list@.take(0) =~= Seq::empty());
        while k < list.len()
            invariant
                i < n,
                n == dependencies@.len(),
                n == dependents@.len(),
                deps == lists(dependencies@),
                is_closed(deps),
                list@ == deps[i as int],
                k <= list@.len(),
                forall|d: int, j: int|
                    0 <= d < n && 0 <= j < n ==> #[trigger] occurrences(lists(dependents@)[d], j) == if j < i {
                        occurrences(deps[j], d)
                    } else if j == i {
                        occurrences(list@.take(k as int), d)
                    } else {
                        0
                    },
                forall|d: int, m: int|
                    0 <= d < dependents@.len() && 0 <= m < dependents@[d]@.len() ==> (
                    #[trigger] dependents@[d]@[m]) < n,
            decreases list@.len() - k,
        {
            let dependency = list[k];
            assert(deps[i as int][k as int] == dependency);
            let ghost before = dependents@;
            dependents[dependency].push(i);
            proof {
                assert(dependents@[dependency as int]@ =~= before[dependency as int]@.push(i));
                assert forall|d: int, j: int| 0 <= d < n && 0 <= j < n implies #[trigger] occurrences(
                    lists(dependents@)[d],
                    j,
                ) == if j < i {
                    occurrences(deps[j], d)
                } else if j == i {
                    occurrences(list@.take(k + 1), d)
                } else {
                    0
                } by {
                    assert(occurrences(lists(before)[d], j) == if j < i {
                        occurrences(deps[j], d)
                    } else if j == i {
                        occurrences(list@.take(k as int), d)
                    } else {
                        0
                    });
                    assert(list@.take(k + 1).drop_last() =~= list@.take(k as int));
                    if d == dependency {
                        assert(lists(dependents@)[d].drop_last() =~= lists(before)[d]);
                    } else {
                        assert(lists(dependents@)[d] == lists(before)[d]);
                    }
                }
                assert forall|d: int, m: int|
                    0 <= d < dependents@.len() && 0 <= m < dependents@[d]@.len() implies (
                #[trigger] dependents@[d]@[m]) < n by {
                    if d == dependency {
                        if m < before[d]@.len() {
                            assert(before[d]@[m] < n);
                        }
                    } else {
                        assert(before[d]@[m] < n);
                    }
                }
            }
            k += 1;
        }
        assert(list@.take(k as int) =~= list@);
        i += 1;
    }
    dependents
}

/// Some of the nodes, each one once and after all of its dependencies.
pub open spec fn is_schedule(deps: Seq<Seq<usize>>, order: Seq<usize>) -> bool {
    &&& order.no_duplicates()
    &&& forall|q: int| 0 <= q < order.len() ==> (#[trigger] order[q]) < deps.len()
    &&& forall|q: int, k: int|
        0 <= q < order.len() && 0 <= k < deps[order[q] as int].len() ==> order.take(q).contains(
            #[trigger] deps[order[q] as int][k],
        )
}

/// All of the nodes can be put in an order in which each one comes after all of its dependencies.
pub open spec fn has_order(deps: Seq<Seq<usize>>) -> bool {
    exists|order: Seq<usize>| order.len() == deps.len() && #[trigger] is_schedule(deps, order)
}

spec fn done_set(order: Seq<usize>, head: int) -> Set<int> {
    Set::new(|x: int| exists|p: int| 0 <= p < head && #[trigger] order[p] == x)
}

proof fn lemma_schedule_ranks(deps: Seq<Seq<usize>>, order: Seq<usize>)
    requires
        is_schedule(deps, order),
        order.len() == deps.len(),
    ensures
        is_acyclic(deps),
        is_closed(deps),
{
    let n = deps.len() as int;
    assert forall|i: int| 0 <= i < n implies #[trigger] as_ints(order).contains(i) by {
        lemma_covers(order, n, i);
    }
    assert forall|i: int, k: int| 0 <= i < deps.len() && 0 <= k < deps[i].len() implies (#[trigger] deps[i][k])
        < deps.len() && deps[i][k] != i by {
        let q = as_ints(order).index_of(i);
        assert(as_ints(order).contains(i));
        assert(order[q] == i);
        let d = deps[order[q] as int][k];
        assert(order.take(q).contains(d));
        let p = order.take(q).index_of(d);
        assert(order[p] == d);
    }
    let rank = |i: int| as_ints(order).index_of(i) as nat;
    assert forall|i: int, k: int| 0 <= i < deps.len() && 0 <= k < deps[i].len() implies rank(
        #[trigger] deps[i][k] as int,
    ) < rank(i) by {
        let q = as_ints(order).index_of(i);
        assert(as_ints(order).contains(i));
        assert(order[q] == i);
        let d = deps[order[q] as int][k];
        assert(order.take(q).contains(d));
        let p = order.take(q).index_of(d);
        assert(as_ints(order)[p] == d as int);
        let r = as_ints(order).index_of(d as int);
        assert(as_ints(order)[r] == d as int);
        assert(order[r] == order[p]);
        assert(r == p);
    }
    assert(ranked_by(deps, rank));
}

proof fn lemma_covers(order: Seq<usize>, n: int, i: int)
    requires
        order.no_duplicates(),
        order.len() == n,
        forall|q: int| 0 <= q < order.len() ==> (#[trigger] order[q]) < n,
        0 <= i < n,
    ensures
        as_ints(order).contains(i),
{
    let ints = as_ints(order);
    let all = vstd::set_lib::set_int_range(0, n);
    vstd::set_lib::lemma_int_range(0, n);
    assert forall|a: int, b: int| 0 <= a < ints.len() && 0 <= b < ints.len() && a != b implies ints[a]
        != ints[b] by {
        assert(order[a] != order[b]);
    }
    assert(ints.no_duplicates());
    ints.unique_seq_to_set();
    assert(ints.to_set().subset_of(all)) by {
        assert forall|x: int| ints.to_set().contains(x) implies all.contains(x) by {
            let q = ints.index_of(x);
            assert(order[q] < n);
        }
    }
    vstd::set_lib::lemma_subset_equality(ints.to_set(), all);
    assert(all.contains(i));
}

proof fn lemma_stuck_has_no_rank(deps: Seq<Seq<usize>>, order: Seq<usize>, rank: spec_fn(int) -> nat, i: int)
    requires
        is_closed(deps),
        0 <= i < deps.len(),
        !as_ints(order).contains(i),
        forall|j: int|
            0 <= j < deps.len() && !as_ints(order).contains(j) ==> exists|k: int|
                0 <= k < deps[j].len() && !as_ints(order).contains(#[trigger] deps[j][k] as int),
    ensures
        !ranked_by(deps, rank),
    decreases rank(i),
{
    if ranked_by(deps, rank) {
        let k = choose|k: int| 0 <= k < deps[i].len() && !as_ints(order).contains(#[trigger] deps[i][k] as int);
        let d = deps[i][k] as int;
        assert(rank(d) < rank(i));
        lemma_stuck_has_no_rank(deps, order, rank, d);
    }
}

/// Finds the first entry, list by list, that is the index of no other node.
pub fn first_stray(dependencies: &Vec<Vec<usize>>) -> (result: Option<(usize, usize)>)
    ensures
        match result {
            Some((i, k)) => is_first_stray(lists(dependencies@), i as int, k as int),
            None => is_closed(lists(dependencies@)),
        },
{
    let n = dependencies.len();
    let ghost deps = lists(dependencies@);
    let mut i: usize = 0;
    while i < n
        invariant
            i <= n,
            n == dependencies@.len(),
            deps == lists(dependencies@),
            forall|j: int, m: int|
                0 <= j < i && 0 <= m < deps[j].len() ==> !#[trigger] is_stray(deps, j, m),
        decreases n - i,
    {
        let list = &dependencies[i];
        assert(list@ == deps[i as int]);
        let mut k: usize = 0;
        while k < list.len()
            invariant
                i < n,
                n == deps.len(),
                k <= list@.len(),
                list@ == deps[i as int],
                forall|j: int, m: int|
                    0 <= j < n && 0 <= m < deps[j].len() && (j < i || j == i && m < k) ==> !#[trigger] is_stray(
                        deps,
                        j,
                        m,
                    ),
                deps == lists(dependencies@),
            decreases list@.len() - k,
        {
            if list[k] >= n || list[k] == i {
                assert(is_stray(deps, i as int, k as int));
                return Some((i, k));
            }
            assert(!is_stray(deps, i as int, k as int));
            k += 1;
        }
        i += 1;
    }
    assert forall|j: int, m: int| 0 <= j < deps.len() && 0 <= m < deps[j].len() implies (#[trigger] deps[j][m])
        < deps.len() && deps[j][m] != j by {
        assert(!is_stray(deps, j, m));
    }
    None
}

/// Tells whether every dependency is the index of another node and they form no cycle.
pub fn acyclic(dependencies: &Vec<Vec<usize>>) -> (result: bool)
    ensures
        result == (is_closed(lists(dependencies@)) && is_acyclic(lists(dependencies@))),
        result == has_order(lists(dependencies@)),
{
    match first_stray(dependencies) {
        Some((i, k)) => {
            proof {
                lemma_stray_has_no_order(lists(dependencies@), i as int, k as int);
            }
            false
        },
        None => can_be_ordered(dependencies),
    }
}

pub(crate) proof fn lemma_stray_has_no_order(deps: Seq<Seq<usize>>, i: int, k: int)
    requires
        is_first_stray(deps, i, k),
    ensures
        !is_closed(deps),
        !has_order(deps),
{
    assert(!(deps[i][k] < deps.len() && deps[i][k] != i));
    if has_order(deps) {
        let order = choose|order: Seq<usize>| order.len() == deps.len() && #[trigger] is_schedule(deps, order);
        lemma_schedule_ranks(deps, order);
    }
}

/// How often a list names a dependency makes no difference: lists with the same entries, each one
/// however often and in whatever order, are both acyclic or both not.
pub proof fn law_repeats_change_nothing(a: Seq<Seq<usize>>, b: Seq<Seq<usize>>)
    requires
        a.len() == b.len(),
        forall|i: int, value: usize|
            0 <= i < a.len() ==> (#[trigger] a[i].contains(value) <==> #[trigger] b[i].contains(value)),
    ensures
        has_order(a) <==> has_order(b),
{
    if has_order(a) {
        lemma_order_carries_over(a, b);
    }
    if has_order(b) {
        lemma_order_carries_over(b, a);
    }
}

proof fn lemma_order_carries_over(a: Seq<Seq<usize>>, b: Seq<Seq<usize>>)
    requires
        a.len() == b.len(),
        has_order(a),
        forall|i: int, value: usize| 0 <= i < a.len() && #[trigger] b[i].contains(value) ==> a[i].contains(value),
    ensures
        has_order(b),
{
    let order = choose|order: Seq<usize>| order.len() == a.len() && #[trigger] is_schedule(a, order);
    assert forall|q: int, k: int| 0 <= q < order.len() && 0 <= k < b[order[q] as int].len() implies order.take(
        q,
    ).contains(#[trigger] b[order[q] as int][k]) by {
        let i = order[q] as int;
        let value = b[i][k];
        assert(b[i].contains(value));
        assert(a[i].contains(value));
        let m = a[i].index_of(value);
        assert(a[order[q] as int][m] == value);
    }
    assert(is_schedule(b, order));
}

/// Tells whether dependencies on nodes form no cycle, by taking the nodes in an order in which each
/// one comes after all of its dependencies.
pub(crate) fn can_be_ordered(dependencies: &Vec<Vec<usize>>) -> (result: bool)
    requires
        is_closed(lists(dependencies@)),
    ensures
        result == is_acyclic(lists(dependencies@)),
        result == has_order(lists(dependencies@)),
{
    let n = dependencies.len();
    let ghost deps = lists(dependencies@);
    let dependents = transpose(dependencies);
    let ghost turned = lists(dependents@);
    let mut indegree: Vec<usize> = Vec::with_capacity(n);
    let mut order: Vec<usize> = Vec::with_capacity(n);
    let mut i: usize = 0;
    while i < n
        invariant
            i <= n,
            n == dependencies@.len(),
            deps == lists(dependencies@),
            indegree@.len() == i,
            forall|j: int| 0 <= j < i ==> #[trigger] indegree@[j] == deps[j].len(),
            forall|j: int|
                0 <= j < n ==> (#[trigger] as_ints(order@).contains(j) <==> j < i && deps[j].len() == 0),
            is_schedule(deps, order@),
            forall|q: int| 0 <= q < order@.len() ==> (#[trigger] order@[q]) < i,
        decreases n - i,
    {
        let count = dependencies[i].len();
        assert(deps[i as int].len() == count);
        indegree.push(count);
        if count == 0 {
            let ghost before = order@;
            order.push(i);
            proof {
                lemma_push_contains(before, i);
                assert forall|q: int, k: int|
                    0 <= q < order@.len() && 0 <= k < deps[order@[q] as int].len() implies order@.take(q).contains(
                    #[trigger] deps[order@[q] as int][k],
                ) by {
                    assert(order@[q] == before[q]);
                    assert(order@.take(q) =~= before.take(q));
                }
            }
        }
        i += 1;
    }
    let mut head: usize = 0;
    proof {
        assert forall|j: int| 0 <= j < n implies #[trigger] indegree@[j] == pending(
            deps[j],
            done_set(order@, 0),
        ) by {
            assert(done_set(order@, 0) =~= Set::empty());
            lemma_pending_empty(deps[j]);
        }
    }
    while head < order.len()
        invariant
            n == dependencies@.len(),
            n == dependents@.len(),
            n == indegree@.len(),
            deps == lists(dependencies@),
            turned == lists(dependents@),
            is_closed(deps),
            is_transposed(deps, turned, n as int),
            forall|d: int, k: int|
                0 <= d < dependents@.len() && 0 <= k < dependents@[d]@.len() ==> (#[trigger] dependents@[d]@[k])
                    < n,
            head <= order@.len(),
            is_schedule(deps, order@),
            forall|j: int| 0 <= j < n ==> #[trigger] indegree@[j] == pending(deps[j], done_set(order@, head as int)),
            forall|j: int| 0 <= j < n ==> (#[trigger] as_ints(order@).contains(j) <==> indegree@[j] == 0),
        decreases n - head,
    {
        let node = order[head];
        proof {
            lemma_schedule_fits(deps, order@);
        }
        let ghost done = done_set(order@, head as int);
        let ghost next = done.insert(node as int);
        proof {
            assert(!done.contains(node as int)) by {
                if done.contains(node as int) {
                    let p = choose|p: int| 0 <= p < head && #[trigger] order@[p] == node as int;
                    assert(order@[p] == order@[head as int]);
                }
            }
        }
        let list = &dependents[node];
        assert(list@ == turned[node as int]);
        let mut k: usize = 0;
        assert(list@.take(0) =~= Seq::empty());
        while k < list.len()
            invariant
                n == dependencies@.len(),
                n == dependents@.len(),
                n == indegree@.len(),
                node < n,
                deps == lists(dependencies@),
                turned == lists(dependents@),
                is_closed(deps),
                is_transposed(deps, turned, n as int),
                list@ == turned[node as int],
                k <= list@.len(),
                forall|m: int| 0 <= m < list@.len() ==> (#[trigger] list@[m]) < n,
                head < order@.len(),
                order@[head as int] == node,
                is_schedule(deps, order@),
                done == done_set(order@, head as int),
                next == done.insert(node as int),
                !done.contains(node as int),
                forall|j: int|
                    0 <= j < n ==> #[trigger] indegree@[j] + occurrences(list@.take(k as int), j) == pending(
                        deps[j],
                        done,
                    ),
                forall|j: int| 0 <= j < n ==> (#[trigger] as_ints(order@).contains(j) <==> indegree@[j] == 0),
            decreases list@.len() - k,
        {
            let dependent = list[k];
            let ghost j0 = dependent as int;
            proof {
                lemma_occurrences_prefix(list@, k + 1, j0);
                assert(list@.take(k + 1).drop_last() =~= list@.take(k as int));
                assert(occurrences(turned[node as int], j0) == occurrences(deps[j0], node as int));
                lemma_pending_insert(deps[j0], done, node as int);
                assert(indegree@[j0] > 0);
            }
            let ghost before = indegree@;
            let ghost past = order@;
            let left = indegree[dependent] - 1;
            indegree.set(dependent, left);
            proof {
                assert forall|j: int| 0 <= j < n implies #[trigger] indegree@[j] + occurrences(
                    list@.take(k + 1),
                    j,
                ) == pending(deps[j], done) by {
                    assert(before[j] + occurrences(list@.take(k as int), j) == pending(deps[j], done));
                }
            }
            if left == 0 {
                proof {
                    assert(!as_ints(past).contains(j0));
                    assert(pending(deps[j0], next) == 0) by {
                        assert(occurrences(list@.take(k + 1), j0) == pending(deps[j0], done));
                    }
                    lemma_pending_zero(deps[j0], next);
                }
                order.push(dependent);
                proof {
                    lemma_push_contains(past, dependent);
                    assert forall|q: int, m: int|
                        0 <= q < order@.len() && 0 <= m < deps[order@[q] as int].len() implies order@.take(
                        q,
                    ).contains(#[trigger] deps[order@[q] as int][m]) by {
                        assert(order@.take(q) =~= past.take(q));
                        if q < past.len() {
                            assert(order@[q] == past[q]);
                        } else {
                            let d = deps[j0][m];
                            assert(next.contains(d as int));
                            if d == node {
                                assert(past[head as int] == d);
                            } else {
                                let p = choose|p: int| 0 <= p < head && #[trigger] past[p] == d as int;
                                assert(past[p] == d);
                            }
                            assert(past.take(q) =~= past);
                        }
                    }
                    assert forall|a: int, b: int|
                        0 <= a < order@.len() && 0 <= b < order@.len() && a != b implies order@[a] != order@[b] by {
                        if a == past.len() {
                            assert(as_ints(past)[b] == past[b] as int);
                        }
                        if b == past.len() {
                            assert(as_ints(past)[a] == past[a] as int);
                        }
                    }
                    assert forall|j: int| 0 <= j < n implies (#[trigger] as_ints(order@).contains(j)
                        <==> indegree@[j] == 0) by {
                        assert(as_ints(past).contains(j) <==> before[j] == 0);
                    }
                    assert(done_set(order@, head as int) =~= done_set(past, head as int)) by {
                        assert forall|x: int| done_set(order@, head as int).contains(x) == done_set(
                            past,
                            head as int,
                        ).contains(x) by {
                            if done_set(past, head as int).contains(x) {
                                let p = choose|p: int| 0 <= p < head && #[trigger] past[p] == x;
                                assert(order@[p] == x);
                            }
                            if done_set(order@, head as int).contains(x) {
                                let p = choose|p: int| 0 <= p < head && #[trigger] order@[p] == x;
                                assert(past[p] == x);
                            }
                        }
                    }
                }
            } else {
                proof {
                    assert forall|j: int| 0 <= j < n implies (#[trigger] as_ints(order@).contains(j)
                        <==> indegree@[j] == 0) by {
                        assert(as_ints(past).contains(j) <==> before[j] == 0);
                    }
                }
            }
            k += 1;
        }
        proof {
            assert(list@.take(k as int) =~= list@);
            assert(done_set(order@, head + 1) =~= next) by {
                assert forall|x: int| done_set(order@, head + 1).contains(x) == next.contains(x) by {
                    if done.contains(x) {
                        let p = choose|p: int| 0 <= p < head && #[trigger] order@[p] == x;
                        assert(order@[p] == x);
                    }
                    assert(order@[head as int] == node);
                    if done_set(order@, head + 1).contains(x) {
                        let p = choose|p: int| 0 <= p < head + 1 && #[trigger] order@[p] == x;
                        if p < head {
                            assert(order@[p] == x);
                        }
                    }
                }
            }
            assert forall|j: int| 0 <= j < n implies #[trigger] indegree@[j] == pending(
                deps[j],
                done_set(order@, head + 1),
            ) by {
                assert(occurrences(turned[node as int], j) == occurrences(deps[j], node as int));
                lemma_pending_insert(deps[j], done, node as int);
            }
            lemma_schedule_fits(deps, order@);
        }
        head += 1;
    }
    let result = order.len() == n;
    proof {
        lemma_schedule_fits(deps, order@);
        if result {
            lemma_schedule_ranks(deps, order@);
        } else {
            if has_order(deps) {
                let full = choose|full: Seq<usize>| full.len() == deps.len() && #[trigger] is_schedule(deps, full);
                lemma_schedule_ranks(deps, full);
            }
            if is_acyclic(deps) {
                let rank = choose|rank: spec_fn(int) -> nat| ranked_by(deps, rank);
                assert forall|j: int| 0 <= j < deps.len() && !as_ints(order@).contains(j) implies exists|k: int|
                    0 <= k < deps[j].len() && !as_ints(order@).contains(#[trigger] deps[j][k] as int) by {
                    assert(indegree@[j] != 0);
                    lemma_pending_zero(deps[j], done_set(order@, head as int));
                    let k = choose|k: int|
                        0 <= k < deps[j].len() && !done_set(order@, head as int).contains(
                            #[trigger] deps[j][k] as int,
                        );
                    let d = deps[j][k] as int;
                    if as_ints(order@).contains(d) {
                        let p = as_ints(order@).index_of(d);
                        assert(order@[p] == d);
                        assert(done_set(order@, head as int).contains(d));
                    }
                }
                let i = lemma_some_missing(order@, n as int);
                lemma_stuck_has_no_rank(deps, order@, rank, i);
            }
        }
    }
    result
}

proof fn lemma_push_contains(order: Seq<usize>, value: usize)
    ensures
        forall|j: int| #[trigger]
            as_ints(order.push(value)).contains(j) <==> as_ints(order).contains(j) || j == value,
{
    assert forall|j: int| #[trigger]
        as_ints(order.push(value)).contains(j) <==> as_ints(order).contains(j) || j == value by {
        assert(as_ints(order.push(value)) =~= as_ints(order).push(value as int));
        if as_ints(order).contains(j) {
            let p = as_ints(order).index_of(j);
            assert(as_ints(order.push(value))[p] == j);
        }
        assert(as_ints(order.push(value))[order.len() as int] == value);
    }
}

proof fn lemma_schedule_fits(deps: Seq<Seq<usize>>, order: Seq<usize>)
    requires
        is_schedule(deps, order),
    ensures
        order.len() <= deps.len(),
{
    let n = deps.len() as int;
    let ints = as_ints(order);
    let all = vstd::set_lib::set_int_range(0, n);
    vstd::set_lib::lemma_int_range(0, n);
    assert forall|a: int, b: int| 0 <= a < ints.len() && 0 <= b < ints.len() && a != b implies ints[a]
        != ints[b] by {
        assert(order[a] != order[b]);
    }
    ints.unique_seq_to_set();
    assert(ints.to_set().subset_of(all)) by {
        assert forall|x: int| ints.to_set().contains(x) implies all.contains(x) by {
            let q = ints.index_of(x);
            assert(order[q] < n);
        }
    }
    vstd::set_lib::lemma_len_subset(ints.to_set(), all);
}

proof fn lemma_some_missing(order: Seq<usize>, n: int) -> (missing: int)
    requires
        order.len() < n,
    ensures
        0 <= missing < n,
        !as_ints(order).contains(missing),
{
    if forall|i: int| 0 <= i < n ==> as_ints(order).contains(i) {
        let all = vstd::set_lib::set_int_range(0, n);
        vstd::set_lib::lemma_int_range(0, n);
        let ints = as_ints(order);
        ints.lemma_cardinality_of_set();
        assert(all.subset_of(ints.to_set())) by {
            assert forall|x: int| all.contains(x) implies ints.to_set().contains(x) by {
                assert(ints.contains(x));
            }
        }
        vstd::set_lib::lemma_len_subset(all, ints.to_set());
        assert(false);
    }
    choose|i: int| 0 <= i < n && !as_ints(order).contains(i)
}

} // verus!
