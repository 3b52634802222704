//! The arbiter of concurrent changes to the IR, and the write permits that it lends out.

use crate::id::Id;
use crate::id_set::IdSet;
use crate::ir::HarvestIR;
use crate::ordered::entries;
use std::collections::BTreeMap;
use std::sync::atomic::AtomicU64;
use std::sync::Arc;
use vstd::prelude::*;

verus! {

/// `Arc::clone` makes another pointer to the same allocation: what it points to is the same
/// value.
#[verifier::external_body]
pub(crate) fn share<T>(shared: &Arc<T>) -> (out: Arc<T>)
    ensures
        out == *shared,
{
    Arc::clone(shared)
}

/// The error of [`Organizer::apply_edit`] and [`Organizer::discard_edit`]: the edit was made
/// by another organizer.
#[derive(Debug, Hash, PartialEq, Eq, Structural)]
pub struct WrongOrganizer;

/// The errors of [`Organizer::new_edit`].
#[derive(Debug, Hash, PartialEq, Eq, Structural)]
pub enum NewEditError {
    /// One of the identifiers belongs to an edit that is still alive.
    IdInUse,
    /// One of the identifiers is not in the IR.
    UnknownId,
}

/// The error of [`Edit::try_write_id`]: the edit may not write that identifier.
#[derive(Debug, PartialEq, Eq, Structural)]
pub struct NotWritable;

/// What an edit holds for each identifier that it may write: `None` where nothing is to be
/// written, `Some` with the representation that is to stand under the identifier.
pub type Pending<R> = Map<u64, Option<R>>;

/// The IR after the writes of `pending` have taken effect on `ir`: each identifier with a
/// pending write holds the written representation, every other identifier what it held.
pub open spec fn committed<R>(ir: Map<u64, R>, pending: Pending<R>) -> Map<u64, R> {
    Map::new(
        |k: u64| ir.contains_key(k) || (pending.contains_key(k) && pending[k] is Some),
        |k: u64|
            if pending.contains_key(k) && pending[k] is Some {
                pending[k]->0
            } else {
                ir[k]
            },
    )
}

/// A write permit: the right to change the representations under a fixed set of identifiers,
/// and to add new ones.
///
/// An edit collects writes and changes nothing until its organizer applies it. Its model is
/// the map from each identifier that it may write to the pending write, if any.
///
/// The identifiers of an edit stay in use until the edit goes back to its organizer, to
/// [`Organizer::apply_edit`] or to [`Organizer::discard_edit`]. An edit that is merely let go
/// of keeps them in use for good.
#[must_use]
pub struct Edit<R> {
    organizer: u64,
    highest_id: Arc<AtomicU64>,
    writable: BTreeMap<u64, Option<R>>,
}

impl<R> View for Edit<R> {
    type V = Pending<R>;

    closed spec fn view(&self) -> Pending<R> {
        self.writable@
    }
}

impl<R> Edit<R> {
    #[verifier::type_invariant]
    spec fn keys_nonzero(&self) -> bool {
        !self.writable@.contains_key(0)
    }

    /// The identity of the organizer that made this edit.
    pub closed spec fn organizer(&self) -> u64 {
        self.organizer
    }

    /// The identifiers that this edit may write.
    pub open spec fn writable(&self) -> Set<u64> {
        self@.dom()
    }

    /// Puts `value` under `key` in the map of pending writes.
    fn put(&mut self, key: u64, value: Option<R>)
        requires
            key != 0,
        ensures
            final(self)@ == old(self)@.insert(key, value),
            final(self).organizer() == old(self).organizer(),
    {
        proof {
            use_type_invariant(&*self);
        }
        let mut writable = BTreeMap::new();
        std::mem::swap(&mut self.writable, &mut writable);
        writable.insert(key, value);
        self.writable = writable;
    }

    /// Allocates a new identifier and sets `representation` to be written under it. The edit
    /// may write the new identifier from then on. Returns `None`, with the edit unchanged, when
    /// the counter of identifiers is exhausted.
    pub fn add_representation(&mut self, representation: R) -> (out: Option<Id>)
        ensures
            final(self).organizer() == old(self).organizer(),
            match out {
                Some(id) => final(self)@ == old(self)@.insert(id@, Some(representation)),
                None => final(self)@ == old(self)@,
            },
    {
        match Id::new(&*self.highest_id) {
            Some(id) => {
                self.put(id.number(), Some(representation));
                Some(id)
            },
            None => None,
        }
    }

    /// Allocates a new identifier that this edit may write, with nothing to be written under
    /// it yet. Returns `None`, with the edit unchanged, when the counter of identifiers is
    /// exhausted.
    pub fn new_id(&mut self) -> (out: Option<Id>)
        ensures
            final(self).organizer() == old(self).organizer(),
            match out {
                Some(id) => final(self)@ == old(self)@.insert(id@, None),
                None => final(self)@ == old(self)@,
            },
    {
        match Id::new(&*self.highest_id) {
            Some(id) => {
                self.put(id.number(), None);
                Some(id)
            },
            None => None,
        }
    }

    /// Sets `representation` to be written under `id`, in place of an earlier pending write.
    /// Fails, with the edit unchanged, if this edit may not write `id`.
    pub fn try_write_id(&mut self, id: Id, representation: R) -> (out: Result<(), NotWritable>)
        ensures
            final(self).organizer() == old(self).organizer(),
            out is Ok <==> old(self).writable().contains(id@),
            match out {
                Ok(_) => final(self)@ == old(self)@.insert(id@, Some(representation)),
                Err(_) => final(self)@ == old(self)@,
            },
    {
        if self.is_writable(id) {
            self.put(id.number(), Some(representation));
            Ok(())
        } else {
            Err(NotWritable)
        }
    }

    /// Sets `representation` to be written under `id`, which this edit must be allowed to
    /// write.
    pub fn write_id(&mut self, id: Id, representation: R)
        requires
            old(self).writable().contains(id@),
        ensures
            final(self).organizer() == old(self).organizer(),
            final(self)@ == old(self)@.insert(id@, Some(representation)),
    {
        self.put(id.number(), Some(representation));
    }

    /// Tells whether this edit may write `id`.
    pub fn is_writable(&self, id: Id) -> (out: bool)
        ensures
            out == self.writable().contains(id@),
    {
        let key = id.number();
        self.writable.contains_key(&key)
    }

    /// The identifiers that this edit may write, in ascending order.
    pub fn writable_ids(&self) -> (out: Vec<Id>)
        ensures
            crate::ordered::ascending(crate::ir::numbers(out@)),
            crate::ir::numbers(out@).to_set() == self.writable(),
    {
        self.ids_where(false)
    }

    /// The identifiers under which this edit is going to write, in ascending order.
    pub fn changed_ids(&self) -> (out: Vec<Id>)
        ensures
            crate::ordered::ascending(crate::ir::numbers(out@)),
            crate::ir::numbers(out@).to_set() == self.writable().filter(
                |k: u64| self@[k] is Some,
            ),
    {
        self.ids_where(true)
    }

    /// The identifiers that this edit may write, or of those only the ones with a pending
    /// write, in ascending order.
    fn ids_where(&self, changed_only: bool) -> (out: Vec<Id>)
        ensures
            crate::ordered::ascending(crate::ir::numbers(out@)),
            crate::ir::numbers(out@).to_set() == self.writable().filter(
                |k: u64| !changed_only || self@[k] is Some,
            ),
    {
        proof {
            use_type_invariant(self);
        }
        let all = entries(&self.writable);
        let ghost keys = all@.map_values(|e: (u64, &Option<R>)| e.0);
        let ghost wanted = self.writable().filter(|k: u64| !changed_only || self@[k] is Some);
        let mut out: Vec<Id> = Vec::new();
        let mut i: usize = 0;
        while i < all.len()
            invariant
                i <= all.len(),
                keys == all@.map_values(|e: (u64, &Option<R>)| e.0),
                crate::ordered::ascending(keys),
                keys.to_set() == self.writable@.dom(),
                forall|j: int|
                    0 <= j < all@.len() ==> self.writable@.contains_key(#[trigger] all@[j].0)
                        && self.writable@[all@[j].0] == *all@[j].1,
                !self.writable@.contains_key(0),
                wanted == self.writable().filter(|k: u64| !changed_only || self@[k] is Some),
                crate::ordered::ascending(crate::ir::numbers(out@)),
                forall|j: int|
                    0 <= j < out@.len() ==> wanted.contains((#[trigger] out@[j])@) && exists|p: int|
                        0 <= p < i && keys[p] == out@[j]@,
                forall|p: int|
                    0 <= p < i && wanted.contains(#[trigger] keys[p]) ==> crate::ir::numbers(
                        out@,
                    ).contains(keys[p]),
            decreases all.len() - i,
        {
            let key = all[i].0;
            let take = !changed_only || all[i].1.is_some();
            let ghost before = out@;
            proof {
                assert(keys[i as int] == key);
                assert(self.writable@.contains_key(all@[i as int].0));
            }
            if take {
                out.push(Id::from_number(key));
                proof {
                    let now = crate::ir::numbers(out@);
                    let was = crate::ir::numbers(before);
                    assert(now =~= was.push(key));
                    assert forall|a: int, b: int| 0 <= a < b < now.len() implies now[a]
                        < now[b] by {
                        if b == now.len() - 1 {
                            let p = choose|p: int| 0 <= p < i && keys[p] == before[a]@;
                            assert(keys[p] < keys[i as int]);
                        } else {
                            assert(was[a] < was[b]);
                        }
                    }
                    assert forall|j: int| 0 <= j < out@.len() implies wanted.contains(
                        (#[trigger] out@[j])@,
                    ) && exists|p: int| 0 <= p < i + 1 && keys[p] == out@[j]@ by {
                        if j < before.len() {
                            let p = choose|p: int| 0 <= p < i && keys[p] == before[j]@;
                            assert(keys[p] == out@[j]@);
                        } else {
                            assert(keys[i as int] == out@[j]@);
                        }
                    }
                    assert forall|p: int|
                        0 <= p < i + 1 && wanted.contains(#[trigger] keys[p]) implies now.contains(
                        keys[p],
                    ) by {
                        if p < i {
                            let q = choose|q: int| 0 <= q < was.len() && was[q] == keys[p];
                            assert(now[q] == keys[p]);
                        } else {
                            assert(now[now.len() - 1] == keys[p]);
                        }
                    }
                }
            }
            i = i + 1;
        }
        proof {
            let now = crate::ir::numbers(out@);
            assert forall|k: u64| now.to_set().contains(k) <==> wanted.contains(k) by {
                if now.to_set().contains(k) {
                    let q = choose|q: int| 0 <= q < now.len() && now[q] == k;
                    assert(wanted.contains(out@[q]@));
                }
                if wanted.contains(k) {
                    assert(keys.to_set().contains(k));
                    let p = choose|p: int| 0 <= p < keys.len() && keys[p] == k;
                    assert(now.contains(keys[p]));
                }
            }
            assert(now.to_set() =~= wanted);
        }
        out
    }
}

/// The arbiter of concurrent changes to an IR.
///
/// An organizer owns the IR. It hands out read access as snapshots and write access as
/// [`Edit`]s, and never lets two edits that are alive at the same time write the same
/// identifier. Its model has three parts: the IR, the set of identifiers in use (those that
/// belong to an edit that is alive), and the identity that its edits carry.
pub struct Organizer<R> {
    ir: Arc<HarvestIR<R>>,
    in_use: IdSet,
    identity: u64,
    highest_id: Arc<AtomicU64>,
}

/// What [`Organizer::new_edit`] answers to a request for the identifiers `might_write`, when
/// the IR holds the identifiers `known` and the identifiers `in_use` are in use. An unknown
/// identifier is reported before one that is in use, so that a mistake of the caller is not
/// taken for a passing conflict.
pub open spec fn new_edit_outcome(known: Set<u64>, in_use: Set<u64>, might_write: Set<u64>)
    -> Result<(), NewEditError> {
    if !might_write.subset_of(known) {
        Err(NewEditError::UnknownId)
    } else if !might_write.disjoint(in_use) {
        Err(NewEditError::IdInUse)
    } else {
        Ok(())
    }
}

/// The pending writes of an edit that has just been made for the identifiers `might_write`:
/// none.
pub open spec fn untouched<R>(might_write: Set<u64>) -> Pending<R> {
    Map::new(|k: u64| might_write.contains(k), |k: u64| None::<R>)
}

impl<R> Organizer<R> {
    /// The IR as it stands.
    pub closed spec fn ir(&self) -> Map<u64, R> {
        (*self.ir)@
    }

    /// The identifiers that belong to an edit that is alive.
    pub closed spec fn in_use(&self) -> Set<u64> {
        self.in_use@
    }

    /// What tells this organizer's edits from those of another.
    pub closed spec fn identity(&self) -> u64 {
        self.identity
    }

    /// This organizer made `edit`, as far as the edit's mark tells.
    pub open spec fn made(&self, edit: Edit<R>) -> bool {
        edit.organizer() == self.identity()
    }

    /// An organizer of an empty IR, whose edits allocate identifiers from `highest_id`. The
    /// organizer draws its identity from that counter, as [`Organizer::with_harvest_ir`]
    /// does. Returns `None` when the counter is exhausted.
    ///
    /// Organizers, IRs and edits that may meet must share one counter: see
    /// [`Organizer::with_harvest_ir`].
    pub fn new(highest_id: Arc<AtomicU64>) -> (out: Option<Organizer<R>>)
        ensures
            out matches Some(organizer) ==> organizer.ir() == Map::<u64, R>::empty()
                && organizer.in_use() == Set::<u64>::empty() && organizer.identity() != 0,
    {
        Organizer::with_harvest_ir(HarvestIR::new(), highest_id)
    }

    /// An organizer of `ir`, whose edits allocate identifiers from `highest_id`. The organizer
    /// draws an identifier from that counter and takes it for its identity, as
    /// [`Organizer::with_identity`] does with an identifier that it is given. Returns `None`
    /// when the counter is exhausted.
    ///
    /// Organizers, IRs and edits that may meet must share one counter, and the counter must
    /// have passed every identifier in `ir`. Then no two organizers draw the same identity,
    /// so each refuses the edits of the others, and no edit is given an identifier that
    /// stands in the IR already. Two organizers that draw from two counters of their own
    /// may draw the same identity, and then take each other's edits for their own.
    pub fn with_harvest_ir(ir: HarvestIR<R>, highest_id: Arc<AtomicU64>) -> (out: Option<
        Organizer<R>,
    >)
        ensures
            out matches Some(organizer) ==> organizer.ir() == ir@ && organizer.in_use()
                == Set::<u64>::empty() && organizer.identity() != 0,
    {
        match Id::new(&*highest_id) {
            Some(identity) => Some(Organizer::with_identity(ir, highest_id, identity)),
            None => None,
        }
    }

    /// An organizer of `ir` that has the identifier `identity` for its identity, and whose
    /// edits allocate identifiers from `highest_id`.
    ///
    /// The identity is what tells the edits of this organizer from those of another: an
    /// organizer applies and discards exactly the edits that carry its identity. Organizers
    /// that may meet each other's edits must be given different identifiers.
    pub fn with_identity(ir: HarvestIR<R>, highest_id: Arc<AtomicU64>, identity: Id) -> (out:
        Organizer<R>)
        ensures
            out.ir() == ir@,
            out.in_use() == Set::<u64>::empty(),
            out.identity() == identity@,
    {
        Organizer {
            ir: Arc::new(ir),
            in_use: IdSet::new(),
            identity: identity.number(),
            highest_id,
        }
    }

    /// Makes an edit that may write the identifiers `might_write`, all of which must be in the
    /// IR and none of which may be in use. They are in use from then on, until the edit is
    /// applied or discarded. The IR stays as it is.
    pub fn new_edit(&mut self, might_write: &IdSet) -> (out: Result<Edit<R>, NewEditError>)
        ensures
            final(self).ir() == old(self).ir(),
            final(self).identity() == old(self).identity(),
            match out {
                Ok(edit) => {
                    &&& new_edit_outcome(old(self).ir().dom(), old(self).in_use(), might_write@)
                        is Ok
                    &&& final(self).in_use() == old(self).in_use().union(might_write@)
                    &&& edit@ == untouched::<R>(might_write@)
                    &&& edit.organizer() == old(self).identity()
                },
                Err(error) => {
                    &&& new_edit_outcome(old(self).ir().dom(), old(self).in_use(), might_write@)
                        == Err::<(), NewEditError>(error)
                    &&& final(self).in_use() == old(self).in_use()
                },
            },
    {
        let ids = might_write.to_vec();
        let ghost wanted = might_write@;
        proof {
            assert forall|k: u64| wanted.contains(k) implies exists|j: int|
                0 <= j < ids@.len() && (#[trigger] ids@[j])@ == k by {
                let numbers = ids@.map_values(|id: Id| id@);
                assert(numbers.to_set().contains(k));
                let j = choose|j: int| 0 <= j < numbers.len() && #[trigger] numbers[j] == k;
                assert(ids@[j]@ == k);
            }
            assert forall|j: int| 0 <= j < ids@.len() implies wanted.contains(
                (#[trigger] ids@[j])@,
            ) by {
                assert(ids@.map_values(|id: Id| id@)[j] == ids@[j]@);
                assert(crate::id_set::number_set(ids@).contains(ids@[j]@));
            }
        }
        let mut i: usize = 0;
        while i < ids.len()
            invariant
                i <= ids.len(),
                *self == *old(self),
                wanted == might_write@,
                forall|j: int| 0 <= j < ids@.len() ==> wanted.contains((#[trigger] ids@[j])@),
                forall|j: int| 0 <= j < i ==> self.ir().contains_key((#[trigger] ids@[j])@),
            decreases ids.len() - i,
        {
            if !self.ir.contains_id(ids[i]) {
                assert(!wanted.subset_of(self.ir().dom())) by {
                    assert(wanted.contains(ids@[i as int]@));
                }
                return Err(NewEditError::UnknownId);
            }
            i = i + 1;
        }
        assert(wanted.subset_of(self.ir().dom())) by {
            assert forall|k: u64| wanted.contains(k) implies self.ir().dom().contains(k) by {
                let j = choose|j: int| 0 <= j < ids@.len() && (#[trigger] ids@[j])@ == k;
                assert(self.ir().contains_key(ids@[j]@));
            }
        }
        let mut i: usize = 0;
        while i < ids.len()
            invariant
                i <= ids.len(),
                *self == *old(self),
                wanted == might_write@,
                wanted.subset_of(self.ir().dom()),
                forall|j: int| 0 <= j < ids@.len() ==> wanted.contains((#[trigger] ids@[j])@),
                forall|j: int| 0 <= j < i ==> !self.in_use().contains((#[trigger] ids@[j])@),
            decreases ids.len() - i,
        {
            if self.in_use.contains(ids[i]) {
                assert(!wanted.disjoint(self.in_use())) by {
                    assert(wanted.contains(ids@[i as int]@));
                }
                return Err(NewEditError::IdInUse);
            }
            i = i + 1;
        }
        assert(wanted.disjoint(self.in_use())) by {
            assert forall|k: u64| wanted.contains(k) implies !self.in_use().contains(k) by {
                let j = choose|j: int| 0 <= j < ids@.len() && (#[trigger] ids@[j])@ == k;
                assert(!self.in_use().contains(ids@[j]@));
            }
        }
        let mut writable: BTreeMap<u64, Option<R>> = BTreeMap::new();
        let mut i: usize = 0;
        while i < ids.len()
            invariant
                i <= ids.len(),
                self.ir() == old(self).ir(),
                self.identity() == old(self).identity(),
                forall|k: u64|
                    self.in_use().contains(k) <==> old(self).in_use().contains(k) || exists|j: int|
                        0 <= j < i && (#[trigger] ids@[j])@ == k,
                forall|k: u64|
                    writable@.contains_key(k) <==> exists|j: int|
                        0 <= j < i && (#[trigger] ids@[j])@ == k,
                forall|k: u64| writable@.contains_key(k) ==> writable@[k] is None,
                !writable@.contains_key(0),
            decreases ids.len() - i,
        {
            let id = ids[i];
            let ghost in_use_before = self.in_use();
            self.in_use.insert(id);
            writable.insert(id.number(), None);
            proof {
                assert forall|k: u64| self.in_use().contains(k) <==> old(self).in_use().contains(k)
                    || exists|j: int| 0 <= j < i + 1 && (#[trigger] ids@[j])@ == k by {
                    if k == id@ {
                        assert(ids@[i as int]@ == k);
                    } else if exists|j: int| 0 <= j < i + 1 && (#[trigger] ids@[j])@ == k {
                        let j = choose|j: int| 0 <= j < i + 1 && (#[trigger] ids@[j])@ == k;
                        assert(j < i);
                    }
                }
                assert forall|k: u64| writable@.contains_key(k) <==> exists|j: int|
                    0 <= j < i + 1 && (#[trigger] ids@[j])@ == k by {
                    if k == id@ {
                        assert(ids@[i as int]@ == k);
                    } else if exists|j: int| 0 <= j < i + 1 && (#[trigger] ids@[j])@ == k {
                        let j = choose|j: int| 0 <= j < i + 1 && (#[trigger] ids@[j])@ == k;
                        assert(j < i);
                    }
                }
            }
            i = i + 1;
        }
        let edit = Edit { organizer: self.identity, highest_id: share(&self.highest_id), writable };
        proof {
            assert(self.in_use() =~= old(self).in_use().union(wanted));
            assert(edit@ =~= untouched::<R>(wanted));
        }
        Ok(edit)
    }

    /// Writes what `edit` holds into the IR, all at once, and frees the identifiers that the
    /// edit might write. An identifier without a pending write keeps its representation. An
    /// edit of another organizer is handed back, and nothing changes.
    pub fn apply_edit(&mut self, edit: Edit<R>) -> (out: Result<(), (WrongOrganizer, Edit<R>)>)
        ensures
            final(self).identity() == old(self).identity(),
            out is Ok <==> old(self).made(edit),
            match out {
                Ok(_) => {
                    &&& final(self).ir() == committed(old(self).ir(), edit@)
                    &&& final(self).in_use() == old(self).in_use().difference(edit.writable())
                },
                Err((_, returned)) => {
                    &&& returned == edit
                    &&& final(self).ir() == old(self).ir()
                    &&& final(self).in_use() == old(self).in_use()
                },
            },
    {
        if edit.organizer != self.identity {
            return Err((WrongOrganizer, edit));
        }
        proof {
            use_type_invariant(&edit);
        }
        let ghost pending = edit@;
        let Edit { organizer: _, highest_id: _, writable } = edit;
        let mut writable = writable;
        let keys = keys_of(&writable);
        let mut next: HarvestIR<R> = (*self.ir).clone();
        let mut i: usize = 0;
        while i < keys.len()
            invariant
                i <= keys.len(),
                self.identity() == old(self).identity(),
                keys@.no_duplicates(),
                keys@.to_set() == pending.dom(),
                !pending.contains_key(0),
                forall|k: u64|
                    writable@.contains_key(k) <==> exists|j: int|
                        i <= j < keys@.len() && #[trigger] keys@[j] == k,
                forall|k: u64| writable@.contains_key(k) ==> writable@[k] == pending[k],
                forall|k: u64|
                    next@.contains_key(k) <==> old(self).ir().contains_key(k) || exists|j: int|
                        0 <= j < i && #[trigger] keys@[j] == k && pending[k] is Some,
                forall|k: u64|
                    next@.contains_key(k) ==> next@[k] == if exists|j: int|
                        0 <= j < i && #[trigger] keys@[j] == k && pending[k] is Some {
                        pending[k]->0
                    } else {
                        old(self).ir()[k]
                    },
                forall|k: u64|
                    self.in_use().contains(k) <==> old(self).in_use().contains(k) && !exists|
                        j: int,
                    | 0 <= j < i && #[trigger] keys@[j] == k,
            decreases keys.len() - i,
        {
            let key = keys[i];
            proof {
                assert(keys@.to_set().contains(keys@[i as int]));
            }
            let id = Id::from_number(key);
            let ghost in_use_before = self.in_use();
            let ghost next_before = next@;
            let ghost writable_before = writable@;
            self.in_use.remove(id);
            match writable.remove(&key) {
                Some(Some(representation)) => {
                    next.insert(id, representation);
                },
                _ => {},
            }
            proof {
                assert forall|k: u64| writable@.contains_key(k) <==> exists|j: int|
                    i + 1 <= j < keys@.len() && #[trigger] keys@[j] == k by {
                    if writable@.contains_key(k) {
                        let j = choose|j: int| i <= j < keys@.len() && #[trigger] keys@[j] == k;
                        assert(j != i);
                    }
                    if exists|j: int| i + 1 <= j < keys@.len() && #[trigger] keys@[j] == k {
                        let j = choose|j: int| i + 1 <= j < keys@.len() && #[trigger] keys@[j] == k;
                        assert(keys@[j] != keys@[i as int]);
                        assert(writable_before.contains_key(k));
                    }
                }
                assert forall|k: u64| next@.contains_key(k) <==> old(self).ir().contains_key(k)
                    || exists|j: int|
                    0 <= j < i + 1 && #[trigger] keys@[j] == k && pending[k] is Some by {
                    if next@.contains_key(k) && !old(self).ir().contains_key(k) {
                        if next_before.contains_key(k) {
                            let j = choose|j: int|
                                0 <= j < i && #[trigger] keys@[j] == k && pending[k] is Some;
                            assert(keys@[j] == k);
                        } else {
                            assert(keys@[i as int] == k);
                        }
                    }
                    if exists|j: int|
                        0 <= j < i + 1 && #[trigger] keys@[j] == k && pending[k] is Some {
                        let j = choose|j: int|
                            0 <= j < i + 1 && #[trigger] keys@[j] == k && pending[k] is Some;
                        if j < i {
                            assert(next_before.contains_key(k));
                        }
                    }
                }
                assert forall|k: u64| next@.contains_key(k) implies next@[k] == if exists|j: int|
                    0 <= j < i + 1 && #[trigger] keys@[j] == k && pending[k] is Some {
                    pending[k]->0
                } else {
                    old(self).ir()[k]
                } by {
                    if k == key {
                        assert(keys@[i as int] == k);
                    } else {
                        if exists|j: int|
                            0 <= j < i + 1 && #[trigger] keys@[j] == k && pending[k] is Some {
                            let j = choose|j: int|
                                0 <= j < i + 1 && #[trigger] keys@[j] == k && pending[k] is Some;
                            assert(j < i);
                        }
                    }
                }
                assert forall|k: u64| self.in_use().contains(k) <==> old(self).in_use().contains(k)
                    && !exists|j: int| 0 <= j < i + 1 && #[trigger] keys@[j] == k by {
                    if k == key {
                        assert(keys@[i as int] == k);
                    } else {
                        if exists|j: int| 0 <= j < i + 1 && #[trigger] keys@[j] == k {
                            let j = choose|j: int| 0 <= j < i + 1 && #[trigger] keys@[j] == k;
                            assert(j < i);
                        }
                    }
                }
            }
            i = i + 1;
        }
        self.ir = Arc::new(next);
        proof {
            assert forall|k: u64| pending.contains_key(k) implies exists|j: int|
                0 <= j < keys@.len() && #[trigger] keys@[j] == k by {
                assert(keys@.to_set().contains(k));
            }
            assert forall|j: int| 0 <= j < keys@.len() implies pending.contains_key(
                #[trigger] keys@[j],
            ) by {
                assert(keys@.to_set().contains(keys@[j]));
            }
            assert(self.ir() =~= committed(old(self).ir(), pending));
            assert(self.in_use() =~= old(self).in_use().difference(pending.dom()));
        }
        Ok(())
    }

    /// Gives up `edit` without writing anything: frees the identifiers that the edit might
    /// write and leaves the IR as it is. An edit of another organizer is handed back, and
    /// nothing changes.
    pub fn discard_edit(&mut self, edit: Edit<R>) -> (out: Result<(), (WrongOrganizer, Edit<R>)>)
        ensures
            final(self).identity() == old(self).identity(),
            final(self).ir() == old(self).ir(),
            out is Ok <==> old(self).made(edit),
            match out {
                Ok(_) => final(self).in_use() == old(self).in_use().difference(edit.writable()),
                Err((_, returned)) => returned == edit && final(self).in_use() == old(
                    self,
                ).in_use(),
            },
    {
        if edit.organizer != self.identity {
            return Err((WrongOrganizer, edit));
        }
        proof {
            use_type_invariant(&edit);
        }
        let keys = keys_of(&edit.writable);
        let mut i: usize = 0;
        while i < keys.len()
            invariant
                i <= keys.len(),
                self.identity() == old(self).identity(),
                self.ir() == old(self).ir(),
                keys@.to_set() == edit@.dom(),
                !edit@.contains_key(0),
                forall|k: u64|
                    self.in_use().contains(k) <==> old(self).in_use().contains(k) && !exists|
                        j: int,
                    | 0 <= j < i && #[trigger] keys@[j] == k,
            decreases keys.len() - i,
        {
            let key = keys[i];
            proof {
                assert(keys@.to_set().contains(keys@[i as int]));
            }
            self.in_use.remove(Id::from_number(key));
            proof {
                assert forall|k: u64| self.in_use().contains(k) <==> old(self).in_use().contains(k)
                    && !exists|j: int| 0 <= j < i + 1 && #[trigger] keys@[j] == k by {
                    if k == key {
                        assert(keys@[i as int] == k);
                    } else {
                        if exists|j: int| 0 <= j < i + 1 && #[trigger] keys@[j] == k {
                            let j = choose|j: int| 0 <= j < i + 1 && #[trigger] keys@[j] == k;
                            assert(j < i);
                        }
                    }
                }
            }
            i = i + 1;
        }
        proof {
            assert forall|k: u64| edit@.contains_key(k) implies exists|j: int|
                0 <= j < keys@.len() && #[trigger] keys@[j] == k by {
                assert(keys@.to_set().contains(k));
            }
            assert forall|j: int| 0 <= j < keys@.len() implies edit@.contains_key(
                #[trigger] keys@[j],
            ) by {
                assert(keys@.to_set().contains(keys@[j]));
            }
            assert(self.in_use() =~= old(self).in_use().difference(edit@.dom()));
        }
        Ok(())
    }

    /// The IR as it stands. The snapshot does not change when edits are applied later.
    pub fn snapshot(&self) -> (out: Arc<HarvestIR<R>>)
        ensures
            (*out)@ == self.ir(),
    {
        share(&self.ir)
    }

    /// The identifiers that are in use.
    pub fn ids_in_use(&self) -> (out: IdSet)
        ensures
            out@ == self.in_use(),
    {
        self.in_use.clone()
    }
}

/// Cross-organizer rejection: an organizer does not take an edit that another organizer
/// made, whatever state the two are in. [`Organizer::apply_edit`] and
/// [`Organizer::discard_edit`] succeed on exactly the edits that the organizer made.
pub proof fn lemma_foreign_edit_refused<R>(maker: Organizer<R>, other: Organizer<R>, edit: Edit<R>)
    requires
        maker.made(edit),
        maker.identity() != other.identity(),
    ensures
        !other.made(edit),
{
}

/// Organizers that were built from different identifiers refuse each other's edits: an edit
/// that one of them made is no edit of the other, whatever state the two are in. So
/// [`Organizer::apply_edit`] and [`Organizer::discard_edit`] of the one hand back each edit
/// of the other, and change nothing.
pub proof fn lemma_identifiers_tell_organizers_apart<R>(
    first: Organizer<R>,
    second: Organizer<R>,
    first_identity: Id,
    second_identity: Id,
    edit: Edit<R>,
)
    requires
        first.identity() == first_identity@,
        second.identity() == second_identity@,
        first_identity != second_identity,
    ensures
        first.identity() != second.identity(),
        first.made(edit) ==> !second.made(edit),
        second.made(edit) ==> !first.made(edit),
{
    Id::lemma_view_injective(first_identity, second_identity);
}

/// The keys of `map`, each once.
fn keys_of<V>(map: &BTreeMap<u64, V>) -> (out: Vec<u64>)
    ensures
        out@.no_duplicates(),
        out@.to_set() == map@.dom(),
{
    let all = entries(map);
    let ghost keys = all@.map_values(|e: (u64, &V)| e.0);
    let mut out: Vec<u64> = Vec::new();
    let mut i: usize = 0;
    while i < all.len()
        invariant
            i <= all.len(),
            out@ == keys.take(i as int),
            keys == all@.map_values(|e: (u64, &V)| e.0),
        decreases all.len() - i,
    {
        out.push(all[i].0);
        assert(out@ =~= keys.take(i + 1));
        i = i + 1;
    }
    proof {
        assert(out@ =~= keys);
        crate::ordered::lemma_ascending_no_duplicates(keys);
    }
    out
}

} // verus!
