//! Lists of positions under texts.

use vstd::hash_map::StringHashMap;
use vstd::prelude::*;

verus! {

/// The positions below `n` that go under `name`, in order.
pub open spec fn places(names: Seq<Option<Seq<char>>>, name: Seq<char>, n: nat) -> Seq<usize>
    decreases n,
{
    if n == 0 {
        Seq::empty()
    } else {
        let before = places(names, name, (n - 1) as nat);
        if names[n - 1] == Some(name) {
            before.push((n - 1) as usize)
        } else {
            before
        }
    }
}

/// Each place lies below `n`, holds the name, and comes after the places before it; no such
/// position is left out.
pub proof fn lemma_places(names: Seq<Option<Seq<char>>>, name: Seq<char>, n: nat)
    requires
        n <= usize::MAX,
    ensures
        forall|k: int|
            0 <= k < places(names, name, n).len() ==> (#[trigger] places(names, name, n)[k]) < n && names[places(
                names,
                name,
                n,
            )[k] as int] == Some(name),
        forall|i: int| 0 <= i < n && (#[trigger] names[i]) == Some(name) ==> places(names, name, n).contains(i as usize),
        places(names, name, n).len() <= n,
        forall|j: int, k: int|
            0 <= j < k < places(names, name, n).len() ==> (#[trigger] places(names, name, n)[j]) < (#[trigger] places(
                names,
                name,
                n,
            )[k]),
    decreases n,
{
    if n > 0 {
        lemma_places(names, name, (n - 1) as nat);
        let before = places(names, name, (n - 1) as nat);
        let after = places(names, name, n);
        assert forall|i: int| 0 <= i < n && (#[trigger] names[i]) == Some(name) implies after.contains(i as usize) by {
            if i < n - 1 {
                let k = before.index_of(i as usize);
                assert(after[k] == i as usize);
            } else {
                assert(after[after.len() - 1] == i as usize);
            }
        }
    }
}

/// Lists of positions, each under a text.
pub struct TextGroups {
    slots: StringHashMap<usize>,
    lists: Vec<Vec<usize>>,
}

spec fn list_under(slots: Map<Seq<char>, usize>, lists: Seq<Vec<usize>>, name: Seq<char>) -> Seq<usize> {
    if slots.contains_key(name) {
        lists[slots[name] as int]@
    } else {
        Seq::empty()
    }
}

impl TextGroups {
    #[verifier::type_invariant]
    spec fn valid(self) -> bool {
        &&& forall|name: Seq<char>| #[trigger]
            self.slots@.contains_key(name) ==> self.slots@[name] < self.lists@.len()
        &&& forall|a: Seq<char>, b: Seq<char>|
            #![trigger self.slots@[a], self.slots@[b]]
            self.slots@.contains_key(a) && self.slots@.contains_key(b) && a != b ==> self.slots@[a] != self.slots@[b]
    }

    /// What stands under `name`.
    pub closed spec fn under(&self, name: Seq<char>) -> Seq<usize> {
        list_under(self.slots@, self.lists@, name)
    }

    pub fn new() -> (groups: Self)
        ensures
            forall|name: Seq<char>| #[trigger] groups.under(name) == Seq::<usize>::empty(),
    {
        TextGroups { slots: StringHashMap::new(), lists: Vec::new() }
    }

    /// What stands under `name`; nothing where no list does.
    pub fn get(&self, name: &str) -> (list: Option<&Vec<usize>>)
        ensures
            match list {
                Some(list) => list@ == self.under(name@),
                None => self.under(name@) == Seq::<usize>::empty(),
            },
    {
        proof {
            use_type_invariant(self);
        }
        match self.slots.get(name) {
            Some(slot) => Some(&self.lists[*slot]),
            None => None,
        }
    }

    /// Adds `item` at the end of the list under `name`.
    pub fn push(&mut self, name: &str, item: usize)
        ensures
            forall|other: Seq<char>| #[trigger]
                final(self).under(other) == (if other == name@ {
                    old(self).under(other).push(item)
                } else {
                    old(self).under(other)
                }),
    {
        proof {
            use_type_invariant(&*self);
        }
        let mut slots: StringHashMap<usize> = StringHashMap::new();
        let mut lists: Vec<Vec<usize>> = Vec::new();
        std::mem::swap(&mut slots, &mut self.slots);
        std::mem::swap(&mut lists, &mut self.lists);
        let ghost old_slots = slots@;
        let ghost old_lists = lists@;
        let found = match slots.get(name) {
            Some(slot) => Some(*slot),
            None => None,
        };
        match found {
            Some(slot) => {
                let mut list: Vec<usize> = Vec::new();
                std::mem::swap(&mut list, &mut lists[slot]);
                list.push(item);
                lists.set(slot, list);
            },
            None => {
                let slot: usize = lists.len();
                let mut list: Vec<usize> = Vec::new();
                list.push(item);
                lists.push(list);
                slots.insert(name.to_string(), slot);
                assert(lists@[slot as int]@ =~= Seq::<usize>::empty().push(item));
            },
        }
        proof {
            assert forall|other: Seq<char>| #[trigger] list_under(slots@, lists@, other) == (if other == name@ {
                list_under(old_slots, old_lists, other).push(item)
            } else {
                list_under(old_slots, old_lists, other)
            }) by {
                if other != name@ && old_slots.contains_key(other) {
                    assert(slots@[other] == old_slots[other]);
                    if old_slots.contains_key(name@) {
                        assert(old_slots[other] != old_slots[name@]);
                    }
                }
            }
        }
        self.lists = lists;
        self.slots = slots;
    }

    /// Takes the list under `name` out.
    pub fn take(&mut self, name: &str) -> (list: Vec<usize>)
        ensures
            list@ == old(self).under(name@),
            forall|other: Seq<char>| #[trigger]
                final(self).under(other) == (if other == name@ {
                    Seq::<usize>::empty()
                } else {
                    old(self).under(other)
                }),
    {
        proof {
            use_type_invariant(&*self);
        }
        let found = match self.slots.get(name) {
            Some(slot) => Some(*slot),
            None => None,
        };
        let mut list: Vec<usize> = Vec::new();
        if let Some(slot) = found {
            let mut lists: Vec<Vec<usize>> = Vec::new();
            let mut slots: StringHashMap<usize> = StringHashMap::new();
            std::mem::swap(&mut slots, &mut self.slots);
            std::mem::swap(&mut lists, &mut self.lists);
            let ghost old_lists = lists@;
            std::mem::swap(&mut list, &mut lists[slot]);
            proof {
                assert forall|other: Seq<char>| #[trigger] list_under(slots@, lists@, other) == (if other == name@ {
                    Seq::<usize>::empty()
                } else {
                    list_under(slots@, old_lists, other)
                }) by {
                    if other != name@ && slots@.contains_key(other) {
                        assert(slots@[other] != slots@[name@]);
                    }
                }
            }
            self.lists = lists;
            self.slots = slots;
        }
        list
    }
}

} // verus!
