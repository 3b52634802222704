//! Sets of identifiers.

use crate::id::Id;
use crate::ordered::members;
use std::collections::BTreeSet;
use vstd::prelude::*;
use vstd::std_specs::convert::FromSpecImpl;

verus! {

/// A set of identifiers. Its model is the set of their numbers.
#[derive(Debug, PartialEq, Eq)]
pub struct IdSet {
    numbers: BTreeSet<u64>,
}

impl View for IdSet {
    type V = Set<u64>;

    closed spec fn view(&self) -> Set<u64> {
        self.numbers@
    }
}

/// The numbers of the identifiers in `ids`.
pub open spec fn number_set(ids: Seq<Id>) -> Set<u64> {
    ids.map_values(|id: Id| id@).to_set()
}

impl Clone for IdSet {
    fn clone(&self) -> (out: Self)
        ensures
            out@ == self@,
    {
        proof {
            use_type_invariant(self);
        }
        IdSet { numbers: self.numbers.clone() }
    }
}

impl Default for IdSet {
    fn default() -> (out: Self)
        ensures
            out@ == Set::<u64>::empty(),
    {
        IdSet::new()
    }
}

impl IdSet {
    #[verifier::type_invariant]
    spec fn numbers_nonzero(&self) -> bool {
        !self.numbers@.contains(0)
    }

    /// The empty set.
    pub fn new() -> (out: Self)
        ensures
            out@ == Set::<u64>::empty(),
    {
        IdSet { numbers: BTreeSet::new() }
    }

    /// The set of the identifiers in `ids`.
    pub fn from_slice(ids: &[Id]) -> (out: Self)
        ensures
            out@ == number_set(ids@),
    {
        let mut numbers: BTreeSet<u64> = BTreeSet::new();
        let mut i: usize = 0;
        while i < ids.len()
            invariant
                i <= ids.len(),
                numbers@ == number_set(ids@.take(i as int)),
                !numbers@.contains(0),
            decreases ids.len() - i,
        {
            let number = ids[i].number();
            numbers.insert(number);
            proof {
                let before = ids@.take(i as int).map_values(|id: Id| id@);
                let now = ids@.take(i + 1).map_values(|id: Id| id@);
                assert(now =~= before.push(number));
                before.lemma_push_to_set_commute(number);
            }
            i = i + 1;
        }
        assert(ids@.take(ids@.len() as int) =~= ids@);
        IdSet { numbers }
    }

    /// Adds `id`. Returns whether it was new to the set.
    pub fn insert(&mut self, id: Id) -> (added: bool)
        ensures
            final(self)@ == old(self)@.insert(id@),
            added == !old(self)@.contains(id@),
    {
        proof {
            use_type_invariant(&*self);
        }
        let number = id.number();
        let mut numbers = BTreeSet::new();
        std::mem::swap(&mut self.numbers, &mut numbers);
        let added = numbers.insert(number);
        self.numbers = numbers;
        added
    }

    /// Takes `id` out. Returns whether it was in the set.
    pub fn remove(&mut self, id: Id) -> (removed: bool)
        ensures
            final(self)@ == old(self)@.remove(id@),
            removed == old(self)@.contains(id@),
    {
        proof {
            use_type_invariant(&*self);
        }
        let number = id.number();
        let mut numbers = BTreeSet::new();
        std::mem::swap(&mut self.numbers, &mut numbers);
        let removed = numbers.remove(&number);
        self.numbers = numbers;
        removed
    }

    /// Tells whether `id` is in the set.
    pub fn contains(&self, id: Id) -> (out: bool)
        ensures
            out == self@.contains(id@),
    {
        let number = id.number();
        self.numbers.contains(&number)
    }

    /// How many identifiers the set holds.
    pub fn len(&self) -> (out: usize)
        ensures
            out == self@.len(),
    {
        self.numbers.len()
    }

    /// Tells whether the set holds no identifier.
    pub fn is_empty(&self) -> (out: bool)
        ensures
            out == (self@.len() == 0),
    {
        self.numbers.len() == 0
    }

    /// The identifiers in the set, each once.
    pub fn to_vec(&self) -> (out: Vec<Id>)
        ensures
            number_set(out@) == self@,
            out@.no_duplicates(),
    {
        proof {
            use_type_invariant(self);
        }
        let all = members(&self.numbers);
        let mut out: Vec<Id> = Vec::new();
        let mut i: usize = 0;
        while i < all.len()
            invariant
                i <= all.len(),
                out@.len() == i,
                forall|j: int| 0 <= j < i ==> (#[trigger] out@[j])@ == all@[j],
                all@.to_set() == self.numbers@,
                !self.numbers@.contains(0),
            decreases all.len() - i,
        {
            assert(all@.to_set().contains(all@[i as int]));
            out.push(Id::from_number(all[i]));
            i = i + 1;
        }
        proof {
            assert(out@.map_values(|id: Id| id@) =~= all@);
            assert forall|a: int, b: int|
                0 <= a < out@.len() && 0 <= b < out@.len() && a != b implies out@[a]
                != out@[b] by {
                assert(all@[a] != all@[b]);
            }
        }
        out
    }
}

impl<const N: usize> From<[Id; N]> for IdSet {
    fn from(ids: [Id; N]) -> (out: IdSet)
        ensures
            out@ == number_set(ids@),
    {
        IdSet::from_slice(ids.as_slice())
    }
}

impl<const N: usize> FromSpecImpl<[Id; N]> for IdSet {
    open spec fn obeys_from_spec() -> bool {
        false
    }

    open spec fn from_spec(ids: [Id; N]) -> IdSet {
        arbitrary()
    }
}

} // verus!
