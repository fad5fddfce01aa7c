//! A map from texts to texts that keeps its names in order.

use crate::text::{lemma_bytes_order_total, lemma_bytes_order_transitive, lemma_text_order_antisymmetric};
use crate::text::{same_text, text_at_or_before, text_precedes};
use vstd::prelude::*;
use vstd::utf8::encode_utf8;

verus! {

/// Texts under names, by name.
#[derive(Debug)]
pub struct TextMap {
    entries: Vec<(String, String)>,
}

/// The contents of entries.
pub open spec fn entry_views(entries: Seq<(String, String)>) -> Seq<(Seq<char>, Seq<char>)> {
    Seq::new(entries.len(), |i: int| (entries[i].0@, entries[i].1@))
}

/// `a` comes before `b` and is not the same.
pub open spec fn name_before(a: Seq<char>, b: Seq<char>) -> bool {
    text_at_or_before(a, b) && a != b
}

/// Each name comes before the ones after it.
pub open spec fn by_name(entries: Seq<(Seq<char>, Seq<char>)>) -> bool {
    forall|i: int, j: int|
        0 <= i < j < entries.len() ==> name_before((#[trigger] entries[i]).0, (#[trigger] entries[j]).0)
}

/// The map that entries make up.
pub open spec fn entry_map(entries: Seq<(Seq<char>, Seq<char>)>) -> Map<Seq<char>, Seq<char>>
    decreases entries.len(),
{
    if entries.len() == 0 {
        Map::empty()
    } else {
        entry_map(entries.drop_last()).insert(entries.last().0, entries.last().1)
    }
}

proof fn lemma_before_transitive(a: Seq<char>, b: Seq<char>, c: Seq<char>)
    requires
        name_before(a, b),
        name_before(b, c),
    ensures
        name_before(a, c),
{
    lemma_bytes_order_transitive(encode_utf8(a), encode_utf8(b), encode_utf8(c));
    if a == c {
        lemma_text_order_antisymmetric(a, b);
    }
}

proof fn lemma_entry_map(entries: Seq<(Seq<char>, Seq<char>)>)
    requires
        by_name(entries),
    ensures
        forall|i: int|
            0 <= i < entries.len() ==> entry_map(entries).contains_key((#[trigger] entries[i]).0) && entry_map(
                entries,
            )[entries[i].0] == entries[i].1,
        forall|name: Seq<char>| #[trigger]
            entry_map(entries).contains_key(name) ==> exists|i: int|
                0 <= i < entries.len() && (#[trigger] entries[i]).0 == name,
        entry_map(entries).dom().finite(),
        entry_map(entries).len() == entries.len(),
    decreases entries.len(),
{
    if entries.len() > 0 {
        let head = entries.drop_last();
        let last = entries.last();
        assert(by_name(head)) by {
            assert forall|i: int, j: int| 0 <= i < j < head.len() implies name_before(
                (#[trigger] head[i]).0,
                (#[trigger] head[j]).0,
            ) by {
                assert(head[i] == entries[i] && head[j] == entries[j]);
            }
        }
        lemma_entry_map(head);
        assert forall|i: int| 0 <= i < entries.len() implies entry_map(entries).contains_key(
            (#[trigger] entries[i]).0,
        ) && entry_map(entries)[entries[i].0] == entries[i].1 by {
            if i < head.len() {
                assert(head[i] == entries[i]);
                assert(name_before(entries[i].0, entries[entries.len() - 1].0));
            }
        }
        assert forall|name: Seq<char>| #[trigger] entry_map(entries).contains_key(name) implies exists|i: int|
            0 <= i < entries.len() && (#[trigger] entries[i]).0 == name by {
            if name != last.0 {
                let i = choose|i: int| 0 <= i < head.len() && (#[trigger] head[i]).0 == name;
                assert(entries[i].0 == name);
            } else {
                assert(entries[entries.len() - 1].0 == name);
            }
        }
        if entry_map(head).contains_key(last.0) {
            let i = choose|i: int| 0 <= i < head.len() && (#[trigger] head[i]).0 == last.0;
            assert(name_before(entries[i].0, entries[entries.len() - 1].0));
        }
    }
}

impl View for TextMap {
    type V = Map<Seq<char>, Seq<char>>;

    closed spec fn view(&self) -> Map<Seq<char>, Seq<char>> {
        entry_map(entry_views(self.entries@))
    }
}

impl TextMap {
    #[verifier::type_invariant]
    spec fn valid(self) -> bool {
        by_name(entry_views(self.entries@))
    }

    pub fn new() -> (map: Self)
        ensures
            map@ == Map::<Seq<char>, Seq<char>>::empty(),
    {
        let entries: Vec<(String, String)> = Vec::new();
        assert(entry_views(entries@) =~= Seq::<(Seq<char>, Seq<char>)>::empty());
        TextMap { entries }
    }

    /// The entries, by name.
    pub fn entries(&self) -> (entries: &Vec<(String, String)>)
        ensures
            by_name(entry_views(entries@)),
            entry_map(entry_views(entries@)) == self@,
    {
        proof {
            use_type_invariant(self);
        }
        &self.entries
    }

    pub fn is_empty(&self) -> (empty: bool)
        ensures
            empty == (self@ == Map::<Seq<char>, Seq<char>>::empty()),
    {
        proof {
            use_type_invariant(self);
            lemma_entry_map(entry_views(self.entries@));
        }
        self.entries.len() == 0
    }

    /// Puts `value` under `name`, and tells whether something stood there.
    pub fn insert(&mut self, name: String, value: String) -> (replaced: bool)
        ensures
            final(self)@ == old(self)@.insert(name@, value@),
            replaced == old(self)@.contains_key(name@),
    {
        proof {
            use_type_invariant(&*self);
        }
        let mut entries: Vec<(String, String)> = Vec::new();
        std::mem::swap(&mut entries, &mut self.entries);
        let ghost before = entry_views(entries@);
        let ghost label = name@;
        let ghost held = value@;
        proof {
            lemma_entry_map(before);
        }
        let mut at: usize = 0;
        while at < entries.len() && !text_precedes(name.as_str(), entries[at].0.as_str())
            invariant
                at <= entries@.len(),
                before == entry_views(entries@),
                label == name@,
                forall|i: int| 0 <= i < at ==> !text_at_or_before(label, (#[trigger] before[i]).0),
            decreases entries@.len() - at,
        {
            at += 1;
        }
        proof {
            assert forall|i: int| 0 <= i < at implies name_before((#[trigger] before[i]).0, label) by {
                lemma_bytes_order_total(encode_utf8(before[i].0), encode_utf8(label));
                if before[i].0 == label {
                    lemma_bytes_order_total(encode_utf8(label), encode_utf8(label));
                }
            }
        }
        let replaced = at < entries.len() && same_text(name.as_str(), entries[at].0.as_str());
        if replaced {
            entries.set(at, (name, value));
            proof {
                let after = entry_views(entries@);
                assert(after =~= before.update(at as int, (label, held)));
                assert(before[at as int].0 == label);
                assert forall|i: int, j: int| 0 <= i < j < after.len() implies name_before(
                    (#[trigger] after[i]).0,
                    (#[trigger] after[j]).0,
                ) by {
                    assert(after[i].0 == before[i].0 && after[j].0 == before[j].0);
                }
                lemma_entry_map(after);
                assert forall|key: Seq<char>| #[trigger] entry_map(after).contains_key(key) == entry_map(before).insert(
                    label,
                    held,
                ).contains_key(key) by {
                    if entry_map(after).contains_key(key) {
                        let i = choose|i: int| 0 <= i < after.len() && (#[trigger] after[i]).0 == key;
                        assert(before[i].0 == key);
                    }
                    if entry_map(before).contains_key(key) {
                        let i = choose|i: int| 0 <= i < before.len() && (#[trigger] before[i]).0 == key;
                        assert(after[i].0 == key);
                    }
                    assert(after[at as int].0 == label);
                }
                assert forall|key: Seq<char>| #[trigger] entry_map(after).contains_key(key) implies entry_map(
                    after,
                )[key] == entry_map(before).insert(label, held)[key] by {
                    let i = choose|i: int| 0 <= i < after.len() && (#[trigger] after[i]).0 == key;
                    assert(before[i].0 == key);
                    if i != at {
                        assert(after[i] == before[i]);
                        if key == label {
                            if i < at {
                                assert(name_before(before[i].0, before[at as int].0));
                            } else {
                                assert(name_before(before[at as int].0, before[i].0));
                            }
                        }
                    } else {
                        assert(after[i] == (label, held));
                    }
                }
                assert(entry_map(after) =~= entry_map(before).insert(label, held));
            }
        } else {
            proof {
                if at < before.len() {
                    assert(text_at_or_before(label, before[at as int].0) && label != before[at as int].0);
                }
                if entry_map(before).contains_key(label) {
                    let i = choose|i: int| 0 <= i < before.len() && (#[trigger] before[i]).0 == label;
                    if i < at {
                        assert(name_before(before[i].0, label));
                    } else if i > at {
                        assert(name_before(before[at as int].0, before[i].0));
                        lemma_before_transitive(label, before[at as int].0, before[i].0);
                    }
                }
            }
            entries.insert(at, (name, value));
            proof {
                let after = entry_views(entries@);
                assert(after =~= before.insert(at as int, (label, held)));
                assert forall|i: int, j: int| 0 <= i < j < after.len() implies name_before(
                    (#[trigger] after[i]).0,
                    (#[trigger] after[j]).0,
                ) by {
                    if j < at {
                        assert(after[i] == before[i] && after[j] == before[j]);
                    } else if j == at {
                        assert(after[i] == before[i]);
                    } else {
                        assert(after[j] == before[j - 1]);
                        if i < at {
                            assert(after[i] == before[i]);
                        } else if i == at {
                            if j - 1 > at {
                                assert(name_before(before[at as int].0, before[j - 1].0));
                                lemma_before_transitive(label, before[at as int].0, before[j - 1].0);
                            }
                        } else {
                            assert(after[i] == before[i - 1]);
                        }
                    }
                }
                lemma_entry_map(after);
                assert forall|key: Seq<char>| #[trigger] entry_map(after).contains_key(key) == entry_map(before).insert(
                    label,
                    held,
                ).contains_key(key) by {
                    if entry_map(after).contains_key(key) {
                        let i = choose|i: int| 0 <= i < after.len() && (#[trigger] after[i]).0 == key;
                        if i < at {
                            assert(before[i].0 == key);
                        } else if i > at {
                            assert(before[i - 1].0 == key);
                        }
                    }
                    if entry_map(before).contains_key(key) {
                        let i = choose|i: int| 0 <= i < before.len() && (#[trigger] before[i]).0 == key;
                        if i < at {
                            assert(after[i].0 == key);
                        } else {
                            assert(after[i + 1].0 == key);
                        }
                    }
                    assert(after[at as int].0 == label);
                }
                assert forall|key: Seq<char>| #[trigger] entry_map(after).contains_key(key) implies entry_map(
                    after,
                )[key] == entry_map(before).insert(label, held)[key] by {
                    let i = choose|i: int| 0 <= i < after.len() && (#[trigger] after[i]).0 == key;
                    if i < at {
                        assert(before[i] == after[i]);
                    } else if i > at {
                        assert(before[i - 1] == after[i]);
                    } else {
                        assert(after[i] == (label, held));
                    }
                }
                assert(entry_map(after) =~= entry_map(before).insert(label, held));
            }
        }
        proof {
            if replaced {
                assert(before[at as int].0 == label);
            }
        }
        self.entries = entries;
        replaced
    }
}

} // verus!
