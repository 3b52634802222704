//! The intermediate representation: a store of representations of a program, keyed by
//! identifier.

use crate::id::Id;
use crate::ordered::ascending;
use crate::ordered::entries;
use std::collections::BTreeMap;
use std::sync::atomic::AtomicU64;
use std::sync::Arc;
use vstd::prelude::*;
use vstd::string::StringExecFns;

verus! {

/// One view of the program that is being transformed.
///
/// A representation is immutable once it stands in the IR: to change it is to put a new value
/// in its place.
pub trait Representation {
    /// The stable short name of this kind of representation: what [`Representation::name`]
    /// returns.
    open spec fn name_spec(&self) -> Seq<char> {
        arbitrary()
    }

    /// The text that stands for this representation where a person reads it: what
    /// [`Representation::render`] returns.
    open spec fn text_spec(&self) -> Seq<char> {
        arbitrary()
    }

    /// This representation's name. It appears in diagnostics and in the names of directories.
    fn name(&self) -> (out: &'static str)
        ensures
            out@ == self.name_spec(),
    ;

    /// Renders this representation as text.
    fn render(&self) -> (out: String)
        ensures
            out@ == self.text_spec(),
    ;
}

/// A type of representations of which some hold a `T`: the way from an IR of many kinds of
/// representations to the representations of one kind.
pub trait Holds<T>: Sized {
    /// The `T` that this representation holds, if it holds one: what [`Holds::part`] returns.
    open spec fn held(&self) -> Option<T> {
        arbitrary()
    }

    /// The `T` that this representation holds, if it holds one.
    fn part(&self) -> (out: Option<&T>)
        ensures
            match out {
                Some(part) => self.held() == Some(*part),
                None => self.held() is None,
            },
    ;

    /// The representation that holds `part`.
    fn wrap(part: T) -> (out: Self)
        ensures
            out.held() == Some(part),
    ;
}

/// The `T` that `representation` holds, if it holds one.
pub fn part_of<'a, R: Holds<T>, T>(representation: &'a R) -> (out: Option<&'a T>)
    ensures
        match out {
            Some(part) => representation.held() == Some(*part),
            None => representation.held() is None,
        },
{
    representation.part()
}

/// The numbers of a list of identifiers, in the list's order.
pub open spec fn numbers(ids: Seq<Id>) -> Seq<u64> {
    ids.map_values(|id: Id| id@)
}

/// The numbers of the identifiers of `ir`, in ascending order.
pub open spec fn sorted_ids<R>(ir: Map<u64, R>) -> Seq<u64> {
    choose|ids: Seq<u64>| ascending(ids) && ids.to_set() == ir.dom()
}

/// There is one way to put the identifiers of an IR in ascending order.
pub proof fn lemma_sorted_ids<R>(ir: Map<u64, R>, ids: Seq<u64>)
    requires
        ascending(ids),
        ids.to_set() == ir.dom(),
    ensures
        sorted_ids(ir) == ids,
{
    crate::ordered::lemma_ascending_unique(sorted_ids(ir), ids);
}

/// `entries` are the identifiers of `ir`, each with its representation, in ascending order of
/// the identifiers.
pub open spec fn lists<R>(entries: Seq<(Id, &R)>, ir: Map<u64, R>) -> bool {
    &&& ascending(numbers(entries.map_values(|e: (Id, &R)| e.0)))
    &&& numbers(entries.map_values(|e: (Id, &R)| e.0)).to_set() == ir.dom()
    &&& forall|i: int|
        0 <= i < entries.len() ==> ir.contains_key((#[trigger] entries[i]).0@) && *entries[i].1
            == ir[entries[i].0@]
}

/// The line that shows the representation with the text `text` under the identifier with the
/// number `id`.
pub open spec fn shown_line(id: u64, text: Seq<char>) -> Seq<char> {
    "Id("@ + crate::text::decimal_digits(id as nat) + ")"@ + ": "@ + text + "\n"@
}

/// The lines that show the first `upto` of the entries `entries`.
pub open spec fn shown_lines<R: Representation>(entries: Seq<(Id, &R)>, upto: int) -> Seq<char>
    decreases upto,
{
    if upto <= 0 {
        Seq::empty()
    } else {
        shown_lines(entries, upto - 1) + shown_line(
            entries[upto - 1].0@,
            entries[upto - 1].1.text_spec(),
        )
    }
}

/// A collection of representations of a program, each under an identifier of its own.
///
/// Its model is the map from an identifier's number to the representation that stands under
/// it. A copy shares the representations with the IR that it was made from.
pub struct HarvestIR<R> {
    representations: BTreeMap<u64, Arc<R>>,
}

impl<R> View for HarvestIR<R> {
    type V = Map<u64, R>;

    closed spec fn view(&self) -> Map<u64, R> {
        Map::new(
            |k: u64| self.representations@.contains_key(k),
            |k: u64| *self.representations@[k],
        )
    }
}

impl<R> Clone for HarvestIR<R> {
    fn clone(&self) -> (out: Self)
        ensures
            out@ == self@,
    {
        proof {
            use_type_invariant(self);
        }
        let out = HarvestIR { representations: self.representations.clone() };
        assert(out@ =~= self@);
        out
    }
}

impl<R> Default for HarvestIR<R> {
    fn default() -> (out: Self)
        ensures
            out@ == Map::<u64, R>::empty(),
    {
        HarvestIR::new()
    }
}

impl<R> HarvestIR<R> {
    #[verifier::type_invariant]
    spec fn keys_nonzero(&self) -> bool {
        !self.representations@.contains_key(0)
    }

    /// The empty IR.
    pub fn new() -> (out: Self)
        ensures
            out@ == Map::<u64, R>::empty(),
    {
        let out = HarvestIR { representations: BTreeMap::new() };
        assert(out@ =~= Map::<u64, R>::empty());
        out
    }

    /// Puts `representation` under `id`, in place of what stood there, if anything did.
    pub(crate) fn insert(&mut self, id: Id, representation: R)
        ensures
            final(self)@ == old(self)@.insert(id@, representation),
    {
        proof {
            use_type_invariant(&*self);
        }
        let key = id.number();
        let mut representations = BTreeMap::new();
        std::mem::swap(&mut self.representations, &mut representations);
        representations.insert(key, Arc::new(representation));
        self.representations = representations;
        assert(self@ =~= old(self)@.insert(id@, representation));
    }

    /// The identifiers in this IR, in ascending order.
    pub fn ids(&self) -> (out: Vec<Id>)
        ensures
            ascending(numbers(out@)),
            numbers(out@).to_set() == self@.dom(),
    {
        proof {
            use_type_invariant(self);
        }
        let all = entries(&self.representations);
        let ghost keys = all@.map_values(|e: (u64, &Arc<R>)| e.0);
        let mut out: Vec<Id> = Vec::new();
        let mut i: usize = 0;
        while i < all.len()
            invariant
                i <= all.len(),
                out@.len() == i,
                forall|j: int| 0 <= j < i ==> (#[trigger] out@[j])@ == all@[j].0,
                forall|j: int|
                    0 <= j < all@.len() ==> self.representations@.contains_key(
                        #[trigger] all@[j].0,
                    ),
                !self.representations@.contains_key(0),
            decreases all.len() - i,
        {
            out.push(Id::from_number(all[i].0));
            i = i + 1;
        }
        proof {
            assert(numbers(out@) =~= keys);
            assert(self@.dom() =~= self.representations@.dom());
        }
        out
    }

    /// Allocates an identifier from `highest_id` and puts `representation` under it. Returns
    /// the identifier, or `None`, with the IR unchanged, when the counter is exhausted.
    pub fn add_representation(&mut self, representation: R, highest_id: &AtomicU64) -> (out:
        Option<Id>)
        ensures
            match out {
                Some(id) => final(self)@ == old(self)@.insert(id@, representation),
                None => final(self)@ == old(self)@,
            },
    {
        match Id::new(highest_id) {
            Some(id) => {
                self.insert(id, representation);
                Some(id)
            },
            None => None,
        }
    }

    /// Tells whether a representation stands under `id`.
    pub fn contains_id(&self, id: Id) -> (out: bool)
        ensures
            out == self@.contains_key(id@),
    {
        let key = id.number();
        self.representations.contains_key(&key)
    }

    /// The representation under `id`, if there is one.
    pub fn get(&self, id: Id) -> (out: Option<&R>)
        ensures
            match out {
                Some(representation) => self@.contains_key(id@) && *representation == self@[id@],
                None => !self@.contains_key(id@),
            },
    {
        let key = id.number();
        match self.representations.get(&key) {
            Some(shared) => Some(&**shared),
            None => None,
        }
    }

    /// How many representations this IR holds.
    pub fn len(&self) -> (out: usize)
        ensures
            out == self@.len(),
    {
        assert(self@.dom() =~= self.representations@.dom());
        self.representations.len()
    }

    /// The identifiers and representations in this IR, in ascending order of the identifiers.
    pub fn iter(&self) -> (out: Vec<(Id, &R)>)
        ensures
            lists(out@, self@),
    {
        proof {
            use_type_invariant(self);
        }
        let all = entries(&self.representations);
        let ghost keys = all@.map_values(|e: (u64, &Arc<R>)| e.0);
        let mut out: Vec<(Id, &R)> = Vec::new();
        let mut i: usize = 0;
        while i < all.len()
            invariant
                i <= all.len(),
                out@.len() == i,
                forall|j: int|
                    0 <= j < i ==> (#[trigger] out@[j]).0@ == all@[j].0 && *out@[j].1
                        == **all@[j].1,
                forall|j: int|
                    0 <= j < all@.len() ==> self.representations@.contains_key(
                        #[trigger] all@[j].0,
                    ),
                !self.representations@.contains_key(0),
            decreases all.len() - i,
        {
            let shared: &Arc<R> = all[i].1;
            out.push((Id::from_number(all[i].0), &**shared));
            i = i + 1;
        }
        proof {
            assert(numbers(out@.map_values(|e: (Id, &R)| e.0)) =~= keys);
            assert(self@.dom() =~= self.representations@.dom());
        }
        out
    }

    /// Renders the IR as text: one line for each representation, with its identifier, in
    /// ascending order of the identifiers.
    pub fn render(&self) -> (out: String)
        where
            R: Representation,
        ensures
            exists|entries: Seq<(Id, &R)>| #[trigger]
                lists(entries, self@) && out@ == shown_lines(entries, entries.len() as int),
    {
        let all = self.iter();
        let mut out = String::new();
        let mut i: usize = 0;
        while i < all.len()
            invariant
                i <= all.len(),
                out@ == shown_lines(all@, i as int),
            decreases all.len() - i,
        {
            out.append(all[i].0.to_string().as_str());
            out.append(": ");
            out.append(all[i].1.render().as_str());
            out.append("\n");
            i = i + 1;
            proof {
                assert(out@ =~= shown_lines(all@, i - 1) + shown_line(
                    all@[i - 1].0@,
                    all@[i - 1].1.text_spec(),
                ));
            }
        }
        out
    }

    /// The representations that hold a `T`, each with its identifier and the `T`, in
    /// ascending order of the identifiers.
    pub fn get_parts<T>(&self) -> (out: Vec<(Id, &T)>)
        where
            R: Holds<T>,
        ensures
            ascending(numbers(out@.map_values(|e: (Id, &T)| e.0))),
            forall|i: int|
                0 <= i < out@.len() ==> self@.contains_key((#[trigger] out@[i]).0@)
                    && self@[out@[i].0@].held() == Some(*out@[i].1),
            forall|k: u64|
                self@.contains_key(k) && !numbers(out@.map_values(|e: (Id, &T)| e.0)).contains(k)
                    ==> self@[k].held() is None,
    {
        self.get_by_representation(part_of)
    }

    /// The representations that `select` picks, each with its identifier and with what
    /// `select` made of it, in ascending order of the identifiers.
    ///
    /// `select` stands for the test of a representation's kind: it hands back the part of a
    /// representation that the caller asked for, or `None` for a representation of another
    /// kind.
    pub fn get_by_representation<'a, T, F: Fn(&'a R) -> Option<&'a T>>(&'a self, select: F) -> (out:
        Vec<(Id, &'a T)>)
        requires
            forall|representation: &R| select.requires((representation,)),
        ensures
            ascending(numbers(out@.map_values(|e: (Id, &T)| e.0))),
            forall|i: int|
                0 <= i < out@.len() ==> self@.contains_key((#[trigger] out@[i]).0@)
                    && select.ensures((&self@[out@[i].0@],), Some(out@[i].1)),
            forall|k: u64|
                self@.contains_key(k) && !numbers(out@.map_values(|e: (Id, &T)| e.0)).contains(k)
                    ==> select.ensures((&self@[k],), None),
    {
        let all = self.iter();
        let ghost all_ids = numbers(all@.map_values(|e: (Id, &R)| e.0));
        let mut out: Vec<(Id, &T)> = Vec::new();
        let mut i: usize = 0;
        while i < all.len()
            invariant
                i <= all.len(),
                all_ids == numbers(all@.map_values(|e: (Id, &R)| e.0)),
                ascending(all_ids),
                all_ids.to_set() == self@.dom(),
                forall|j: int| 0 <= j < all@.len() ==> *(#[trigger] all@[j]).1 == self@[all@[j].0@],
                forall|representation: &R| select.requires((representation,)),
                ascending(numbers(out@.map_values(|e: (Id, &T)| e.0))),
                forall|j: int|
                    0 <= j < out@.len() ==> self@.contains_key((#[trigger] out@[j]).0@)
                        && select.ensures((&self@[out@[j].0@],), Some(out@[j].1)),
                forall|j: int|
                    0 <= j < out@.len() ==> exists|p: int|
                        0 <= p < i && all_ids[p] == (#[trigger] out@[j]).0@,
                forall|p: int|
                    0 <= p < i && !numbers(out@.map_values(|e: (Id, &T)| e.0)).contains(
                        #[trigger] all_ids[p],
                    ) ==> select.ensures((&self@[all_ids[p]],), None),
            decreases all.len() - i,
        {
            let id = all[i].0;
            let representation: &R = all[i].1;
            let ghost before = out@;
            proof {
                assert(all_ids[i as int] == all@[i as int].0@);
                assert(all_ids.to_set().contains(all_ids[i as int]));
            }
            match select(representation) {
                Some(part) => {
                    out.push((id, part));
                    proof {
                        let now = numbers(out@.map_values(|e: (Id, &T)| e.0));
                        let was = numbers(before.map_values(|e: (Id, &T)| e.0));
                        assert(now =~= was.push(id@));
                        assert forall|a: int, b: int| 0 <= a < b < now.len() implies now[a]
                            < now[b] by {
                            if b == now.len() - 1 {
                                let p = choose|p: int| 0 <= p < i && all_ids[p] == before[a].0@;
                                assert(all_ids[p] < all_ids[i as int]);
                            } else {
                                assert(was[a] < was[b]);
                            }
                        }
                        assert forall|j: int| 0 <= j < out@.len() implies exists|p: int|
                            0 <= p < i + 1 && all_ids[p] == (#[trigger] out@[j]).0@ by {
                            if j < before.len() {
                                let p = choose|p: int| 0 <= p < i && all_ids[p] == before[j].0@;
                                assert(all_ids[p] == out@[j].0@);
                            } else {
                                assert(all_ids[i as int] == out@[j].0@);
                            }
                        }
                        assert forall|p: int|
                            0 <= p < i + 1 && !now.contains(
                                #[trigger] all_ids[p],
                            ) implies select.ensures((&self@[all_ids[p]],), None) by {
                            if p < i {
                                if was.contains(all_ids[p]) {
                                    let q = choose|q: int| 0 <= q < was.len() && was[q] == all_ids[p];
                                    assert(now[q] == all_ids[p]);
                                }
                            } else {
                                assert(now[now.len() - 1] == all_ids[p]);
                            }
                        }
                    }
                },
                None => {},
            }
            i = i + 1;
        }
        proof {
            let now = numbers(out@.map_values(|e: (Id, &T)| e.0));
            assert forall|k: u64| self@.contains_key(k) && !now.contains(k) implies select.ensures(
                (&self@[k],),
                None,
            ) by {
                assert(all_ids.to_set().contains(k));
                let p = choose|p: int| 0 <= p < all_ids.len() && all_ids[p] == k;
                assert(!now.contains(all_ids[p]));
            }
        }
        out
    }
}

/// Why there is not the one representation of a kind in the IR that was asked for.
#[derive(Debug, PartialEq, Eq, Structural)]
pub enum NotOne {
    /// There is none.
    Missing,
    /// There are this many.
    Many(usize),
}

/// Which representations of `ir` hold a `T`: their identifiers' numbers.
pub open spec fn holders<R: Holds<T>, T>(ir: Map<u64, R>) -> Set<u64> {
    Set::new(|k: u64| ir.contains_key(k) && ir[k].held() is Some)
}

/// The one `T` that the representations of `ir` hold. It is an error if none holds a `T`,
/// and if more than one does.
pub fn the_one<R: Holds<T>, T>(ir: &HarvestIR<R>) -> (out: Result<&T, NotOne>)
    ensures
        match out {
            Ok(part) => exists|k: u64|
                holders::<R, T>(ir@) == set![k] && ir@[k].held() == Some(*part),
            Err(NotOne::Missing) => holders::<R, T>(ir@) == Set::<u64>::empty(),
            Err(NotOne::Many(count)) => count > 1 && holders::<R, T>(ir@).len() == count
                && holders::<R, T>(ir@).finite(),
        },
{
    let parts = ir.get_parts::<T>();
    let ghost listed = numbers(parts@.map_values(|e: (Id, &T)| e.0));
    proof {
        crate::ordered::lemma_ascending_no_duplicates(listed);
        assert forall|k: u64| holders::<R, T>(ir@).contains(k) <==> listed.to_set().contains(
            k,
        ) by {
            if listed.to_set().contains(k) {
                let i = choose|i: int| 0 <= i < listed.len() && listed[i] == k;
                assert(ir@.contains_key(parts@[i].0@));
            }
            if holders::<R, T>(ir@).contains(k) && !listed.contains(k) {
                assert(ir@[k].held() is None);
            }
        }
        assert(holders::<R, T>(ir@) =~= listed.to_set());
        listed.unique_seq_to_set();
    }
    if parts.len() == 0 {
        proof {
            assert(listed.to_set() =~= Set::<u64>::empty());
        }
        Err(NotOne::Missing)
    } else if parts.len() == 1 {
        proof {
            assert(listed.to_set() =~= set![listed[0]]) by {
                assert forall|k: u64| listed.to_set().contains(k) implies k == listed[0] by {
                    let i = choose|i: int| 0 <= i < listed.len() && listed[i] == k;
                }
                assert(listed.to_set().contains(listed[0]));
            }
            assert(ir@.contains_key(parts@[0].0@));
        }
        Ok(parts[0].1)
    } else {
        Err(NotOne::Many(parts.len()))
    }
}

/// The first `T` that the representations of `ir` hold: the one under the lowest identifier.
/// There is none if no representation holds a `T`.
pub fn the_first<R: Holds<T>, T>(ir: &HarvestIR<R>) -> (out: Option<&T>)
    ensures
        match out {
            Some(part) => exists|k: u64|
                {
                    &&& #[trigger] holders::<R, T>(ir@).contains(k)
                    &&& forall|j: u64| holders::<R, T>(ir@).contains(j) ==> k <= j
                    &&& ir@[k].held() == Some(*part)
                },
            None => holders::<R, T>(ir@) == Set::<u64>::empty(),
        },
{
    let parts = ir.get_parts::<T>();
    let ghost listed = numbers(parts@.map_values(|e: (Id, &T)| e.0));
    proof {
        assert forall|k: u64| holders::<R, T>(ir@).contains(k) implies listed.contains(k) by {
            if !listed.contains(k) {
                assert(ir@[k].held() is None);
            }
        }
    }
    if parts.len() == 0 {
        proof {
            assert(holders::<R, T>(ir@) =~= Set::<u64>::empty());
        }
        None
    } else {
        proof {
            let k = parts@[0].0@;
            assert(listed[0] == k);
            assert(ir@.contains_key(parts@[0].0@));
            assert(holders::<R, T>(ir@).contains(k));
            assert forall|j: u64| holders::<R, T>(ir@).contains(j) implies k <= j by {
                let i = choose|i: int| 0 <= i < listed.len() && listed[i] == j;
                if i > 0 {
                    assert(listed[0] < listed[i]);
                }
            }
        }
        Some(parts[0].1)
    }
}

} // verus!
