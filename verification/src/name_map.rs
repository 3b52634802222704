//! Maps from names to values that keep their entries in the order of the names.

use crate::text::lemma_precedes_irreflexive;
use crate::text::lemma_precedes_transitive;
use crate::text::precedes;
use crate::text::rank;
use crate::text::Rank;
use vstd::prelude::*;

verus! {

/// The names in `entries` ascend in the order of texts.
pub open spec fn names_ascend<V>(entries: Seq<(String, V)>) -> bool {
    forall|i: int, j: int|
        0 <= i < j < entries.len() ==> precedes((#[trigger] entries[i]).0@, (#[trigger] entries[j]).0@)
}

/// A place in `entries` where the name `name` stands, if it stands anywhere.
pub open spec fn place_of<V>(entries: Seq<(String, V)>, name: Seq<char>) -> int {
    choose|i: int| 0 <= i < entries.len() && (#[trigger] entries[i]).0@ == name
}

/// The map that `entries` spell out.
pub open spec fn spelled<V>(entries: Seq<(String, V)>) -> Map<Seq<char>, V> {
    Map::new(
        |name: Seq<char>| exists|i: int| 0 <= i < entries.len() && (#[trigger] entries[i]).0@ == name,
        |name: Seq<char>| entries[place_of(entries, name)].1,
    )
}

/// Where names ascend, each name stands for the value beside it.
pub proof fn lemma_spelled_at<V>(entries: Seq<(String, V)>, at: int)
    requires
        names_ascend(entries),
        0 <= at < entries.len(),
    ensures
        spelled(entries).contains_key(entries[at].0@),
        spelled(entries)[entries[at].0@] == entries[at].1,
{
    let name = entries[at].0@;
    let found = place_of(entries, name);
    lemma_precedes_irreflexive(name);
    if found < at {
        assert(precedes(entries[found].0@, entries[at].0@));
    } else if at < found {
        assert(precedes(entries[at].0@, entries[found].0@));
    }
}

/// A map from names to values. Its entries stand in the order of their names, which is the
/// order in which [`NameMap::entry_at`] hands them out.
#[derive(Debug, PartialEq, Eq)]
pub struct NameMap<V> {
    entries: Vec<(String, V)>,
}

impl<V> View for NameMap<V> {
    type V = Map<Seq<char>, V>;

    closed spec fn view(&self) -> Map<Seq<char>, V> {
        spelled(self.entries@)
    }
}

impl<V> NameMap<V> {
    #[verifier::type_invariant]
    spec fn sorted(&self) -> bool {
        names_ascend(self.entries@)
    }

    /// The names in the map, in ascending order.
    pub closed spec fn names(&self) -> Seq<Seq<char>> {
        self.entries@.map_values(|entry: (String, V)| entry.0@)
    }

    /// Every value in a map is smaller than the map: this is what lets a function on a tree
    /// of maps call itself on the values.
    pub proof fn lemma_value_smaller(&self, name: Seq<char>)
        requires
            self@.contains_key(name),
        ensures
            decreases_to!(self => self@[name]),
    {
        let entries = self.entries@;
        let at = place_of(entries, name);
        assert(spelled(entries)[name] == entries[at].1);
    }

    /// Every name that the map holds is among its names, and the other way round.
    pub proof fn lemma_names_cover(&self)
        ensures
            forall|name: Seq<char>| self@.contains_key(name) <==> self.names().contains(name),
    {
        assert forall|name: Seq<char>| self@.contains_key(name) <==> self.names().contains(
            name,
        ) by {
            if self@.contains_key(name) {
                let i = choose|i: int|
                    0 <= i < self.entries@.len() && (#[trigger] self.entries@[i]).0@ == name;
                assert(self.names()[i] == name);
            }
            if self.names().contains(name) {
                let i = choose|i: int| 0 <= i < self.names().len() && self.names()[i] == name;
                assert(self.entries@[i].0@ == name);
            }
        }
    }

    /// The empty map.
    pub fn new() -> (out: Self)
        ensures
            out@ == Map::<Seq<char>, V>::empty(),
            out.names() == Seq::<Seq<char>>::empty(),
    {
        let out = NameMap { entries: Vec::new() };
        assert(out@ =~= Map::<Seq<char>, V>::empty());
        assert(out.names() =~= Seq::<Seq<char>>::empty());
        out
    }

    /// How many entries the map has.
    pub fn len(&self) -> (out: usize)
        ensures
            out == self.names().len(),
    {
        self.entries.len()
    }

    /// The entry number `at` in the order of the names.
    pub fn entry_at(&self, at: usize) -> (out: (&String, &V))
        requires
            at < self.names().len(),
        ensures
            out.0@ == self.names()[at as int],
            self@.contains_key(out.0@),
            *out.1 == self@[out.0@],
            forall|i: int, j: int|
                0 <= i < j < self.names().len() ==> precedes(
                    #[trigger] self.names()[i],
                    #[trigger] self.names()[j],
                ),
            forall|name: Seq<char>| self@.contains_key(name) <==> self.names().contains(name),
            decreases_to!(self => out.1),
    {
        proof {
            use_type_invariant(self);
            lemma_spelled_at(self.entries@, at as int);
            self.lemma_names();
        }
        (&self.entries[at].0, &self.entries[at].1)
    }

    /// The names of a map whose entries ascend are the names that the map holds, in ascending
    /// order.
    proof fn lemma_names(&self)
        requires
            names_ascend(self.entries@),
        ensures
            forall|i: int, j: int|
                0 <= i < j < self.names().len() ==> precedes(
                    #[trigger] self.names()[i],
                    #[trigger] self.names()[j],
                ),
            forall|name: Seq<char>| self@.contains_key(name) <==> self.names().contains(name),
    {
        assert forall|i: int, j: int| 0 <= i < j < self.names().len() implies precedes(
            #[trigger] self.names()[i],
            #[trigger] self.names()[j],
        ) by {
            assert(precedes(self.entries@[i].0@, self.entries@[j].0@));
        }
        assert forall|name: Seq<char>| self@.contains_key(name) <==> self.names().contains(
            name,
        ) by {
            if self@.contains_key(name) {
                let i = choose|i: int|
                    0 <= i < self.entries@.len() && (#[trigger] self.entries@[i]).0@ == name;
                assert(self.names()[i] == name);
            }
            if self.names().contains(name) {
                let i = choose|i: int| 0 <= i < self.names().len() && self.names()[i] == name;
                assert(self.entries@[i].0@ == name);
            }
        }
    }

    /// Where the entry with the name `name` stands, or where it would have to stand.
    fn locate(&self, name: &str) -> (out: (usize, bool))
        ensures
            out.0 <= self.entries@.len(),
            out.1 ==> out.0 < self.entries@.len() && self.entries@[out.0 as int].0@ == name@,
            !out.1 ==> !spelled(self.entries@).contains_key(name@),
            forall|i: int| 0 <= i < out.0 ==> precedes((#[trigger] self.entries@[i]).0@, name@),
            forall|i: int|
                out.0 <= i < self.entries@.len() && !(out.1 && i == out.0) ==> precedes(
                    name@,
                    (#[trigger] self.entries@[i]).0@,
                ),
    {
        proof {
            use_type_invariant(self);
        }
        let mut at: usize = 0;
        while at < self.entries.len()
            invariant
                at <= self.entries@.len(),
                names_ascend(self.entries@),
                forall|i: int| 0 <= i < at ==> precedes((#[trigger] self.entries@[i]).0@, name@),
            decreases self.entries.len() - at,
        {
            match rank(self.entries[at].0.as_str(), name) {
                Rank::Before => {},
                Rank::Same => {
                    proof {
                        assert forall|i: int|
                            at < i < self.entries@.len() implies precedes(
                            name@,
                            (#[trigger] self.entries@[i]).0@,
                        ) by {
                            assert(precedes(self.entries@[at as int].0@, self.entries@[i].0@));
                        }
                    }
                    return (at, true);
                },
                Rank::After => {
                    proof {
                        self.lemma_beyond(name@, at as int);
                    }
                    return (at, false);
                },
            }
            at = at + 1;
        }
        proof {
            self.lemma_beyond(name@, at as int);
        }
        (at, false)
    }

    /// A name that comes after the first `at` names and before the others is not in the map.
    proof fn lemma_beyond(&self, name: Seq<char>, at: int)
        requires
            names_ascend(self.entries@),
            0 <= at <= self.entries@.len(),
            forall|i: int| 0 <= i < at ==> precedes((#[trigger] self.entries@[i]).0@, name),
            at < self.entries@.len() ==> precedes(name, self.entries@[at].0@),
        ensures
            !spelled(self.entries@).contains_key(name),
            forall|i: int|
                at <= i < self.entries@.len() ==> precedes(name, (#[trigger] self.entries@[i]).0@),
    {
        assert forall|i: int| at <= i < self.entries@.len() implies precedes(
            name,
            (#[trigger] self.entries@[i]).0@,
        ) by {
            if at < i {
                assert(precedes(self.entries@[at].0@, self.entries@[i].0@));
                lemma_precedes_transitive(name, self.entries@[at].0@, self.entries@[i].0@);
            }
        }
        if spelled(self.entries@).contains_key(name) {
            let i = choose|i: int|
                0 <= i < self.entries@.len() && (#[trigger] self.entries@[i]).0@ == name;
            lemma_precedes_irreflexive(name);
        }
    }

    /// Tells whether the map has an entry with the name `name`.
    pub fn contains(&self, name: &str) -> (out: bool)
        ensures
            out == self@.contains_key(name@),
    {
        let (at, found) = self.locate(name);
        found
    }

    /// The value with the name `name`, if there is one.
    pub fn get(&self, name: &str) -> (out: Option<&V>)
        ensures
            match out {
                Some(value) => self@.contains_key(name@) && *value == self@[name@],
                None => !self@.contains_key(name@),
            },
    {
        let (at, found) = self.locate(name);
        if found {
            proof {
                use_type_invariant(self);
                lemma_spelled_at(self.entries@, at as int);
            }
            Some(&self.entries[at].1)
        } else {
            None
        }
    }

    /// Puts `value` under `name`. Returns the value that stood there, if one did.
    pub fn insert(&mut self, name: String, value: V) -> (out: Option<V>)
        ensures
            final(self)@ == old(self)@.insert(name@, value),
            match out {
                Some(replaced) => old(self)@.contains_key(name@) && replaced == old(self)@[name@],
                None => !old(self)@.contains_key(name@),
            },
    {
        proof {
            use_type_invariant(&*self);
        }
        let (at, found) = self.locate(name.as_str());
        let mut entries: Vec<(String, V)> = Vec::new();
        std::mem::swap(&mut self.entries, &mut entries);
        let ghost before = entries@;
        let out = if found {
            proof {
                lemma_spelled_at(before, at as int);
            }
            let (_, replaced) = entries.remove(at);
            Some(replaced)
        } else {
            None
        };
        entries.insert(at, (name, value));
        proof {
            let after = entries@;
            assert forall|i: int, j: int| 0 <= i < j < after.len() implies precedes(
                (#[trigger] after[i]).0@,
                (#[trigger] after[j]).0@,
            ) by {
                let oi = if i < at { i } else if found { i } else { i - 1 };
                let oj = if j < at { j } else if found { j } else { j - 1 };
                if i != at && j != at {
                    assert(precedes(before[oi].0@, before[oj].0@));
                } else if i == at {
                    assert(after[j] == before[oj]);
                } else {
                    assert(after[i] == before[oi]);
                }
            }
            assert forall|key: Seq<char>| spelled(after).contains_key(key) <==> spelled(
                before,
            ).insert(name@, value).contains_key(key) by {
                if spelled(after).contains_key(key) {
                    let i = choose|i: int| 0 <= i < after.len() && (#[trigger] after[i]).0@ == key;
                    if i != at {
                        let oi = if i < at { i } else if found { i } else { i - 1 };
                        assert(before[oi].0@ == key);
                    }
                }
                if key == name@ {
                    assert(after[at as int].0@ == key);
                } else if spelled(before).contains_key(key) {
                    let i = choose|i: int|
                        0 <= i < before.len() && (#[trigger] before[i]).0@ == key;
                    let ni = if i < at { i } else if found { i } else { i + 1 };
                    assert(after[ni].0@ == key);
                }
            }
            assert forall|key: Seq<char>| spelled(after).contains_key(key) implies spelled(
                after,
            )[key] == spelled(before).insert(name@, value)[key] by {
                let i = choose|i: int| 0 <= i < after.len() && (#[trigger] after[i]).0@ == key;
                lemma_spelled_at(after, i);
                if i != at {
                    let oi = if i < at { i } else if found { i } else { i - 1 };
                    assert(before[oi] == after[i]);
                    lemma_spelled_at(before, oi);
                    lemma_precedes_irreflexive(name@);
                }
            }
            assert(spelled(after) =~= spelled(before).insert(name@, value));
        }
        self.entries = entries;
        out
    }

    /// Takes the entry with the name `name` out of the map. Returns its value, if there was
    /// one.
    pub fn remove(&mut self, name: &str) -> (out: Option<V>)
        ensures
            final(self)@ == old(self)@.remove(name@),
            match out {
                Some(removed) => old(self)@.contains_key(name@) && removed == old(self)@[name@],
                None => !old(self)@.contains_key(name@),
            },
    {
        proof {
            use_type_invariant(&*self);
        }
        let (at, found) = self.locate(name);
        if !found {
            assert(self@ =~= old(self)@.remove(name@));
            return None;
        }
        let mut entries: Vec<(String, V)> = Vec::new();
        std::mem::swap(&mut self.entries, &mut entries);
        let ghost before = entries@;
        proof {
            lemma_spelled_at(before, at as int);
        }
        let (_, removed) = entries.remove(at);
        proof {
            let after = entries@;
            assert forall|i: int, j: int| 0 <= i < j < after.len() implies precedes(
                (#[trigger] after[i]).0@,
                (#[trigger] after[j]).0@,
            ) by {
                let oi = if i < at { i } else { i + 1 };
                let oj = if j < at { j } else { j + 1 };
                assert(precedes(before[oi].0@, before[oj].0@));
            }
            lemma_precedes_irreflexive(name@);
            assert forall|key: Seq<char>| spelled(after).contains_key(key) <==> spelled(
                before,
            ).remove(name@).contains_key(key) by {
                if spelled(after).contains_key(key) {
                    let i = choose|i: int| 0 <= i < after.len() && (#[trigger] after[i]).0@ == key;
                    let oi = if i < at { i } else { i + 1 };
                    assert(before[oi].0@ == key);
                    if oi < at {
                        assert(precedes(before[oi].0@, before[at as int].0@));
                    } else {
                        assert(precedes(before[at as int].0@, before[oi].0@));
                    }
                }
                if key != name@ && spelled(before).contains_key(key) {
                    let i = choose|i: int|
                        0 <= i < before.len() && (#[trigger] before[i]).0@ == key;
                    let ni = if i < at { i } else { i - 1 };
                    assert(after[ni].0@ == key);
                }
            }
            assert forall|key: Seq<char>| spelled(after).contains_key(key) implies spelled(
                after,
            )[key] == spelled(before).remove(name@)[key] by {
                let i = choose|i: int| 0 <= i < after.len() && (#[trigger] after[i]).0@ == key;
                lemma_spelled_at(after, i);
                let oi = if i < at { i } else { i + 1 };
                assert(before[oi] == after[i]);
                lemma_spelled_at(before, oi);
            }
            assert(spelled(after) =~= spelled(before).remove(name@));
        }
        self.entries = entries;
        Some(removed)
    }
}

} // verus!
