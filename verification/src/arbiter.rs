//! A model of an organizer together with the edits that it has handed out, and what holds of
//! every state that the two can reach.
//!
//! An [`crate::edit::Edit`] lives apart from its [`crate::edit::Organizer`], so what holds
//! between the edits that are alive cannot be read off either of them. The model puts them side
//! by side: its steps are the operations of the two types, stated with the spec functions of
//! their contracts, and the counter of identifiers advances as one atomic counter does.

use crate::edit::committed;
use crate::edit::new_edit_outcome;
use crate::edit::untouched;
use crate::edit::Edit;
use crate::edit::Organizer;
use crate::edit::Pending;
use vstd::prelude::*;

verus! {

/// An organizer, the edits of it that are alive, and the counter of identifiers.
pub struct System<R> {
    /// The IR.
    pub ir: Map<u64, R>,
    /// The identifiers in use.
    pub in_use: Set<u64>,
    /// The pending writes of each edit that is alive.
    pub edits: Map<int, Pending<R>>,
    /// The highest identifier that has been allocated.
    pub highest: nat,
}

/// One operation on the system.
pub enum Step<R> {
    /// `Organizer::new_edit` succeeds and makes the edit `edit`.
    NewEdit { edit: int, might_write: Set<u64> },
    /// `Edit::add_representation` or `Edit::new_id` allocates an identifier for `edit`.
    Allocate { edit: int, write: Option<R> },
    /// `Edit::write_id` sets a write.
    Write { edit: int, id: u64, representation: R },
    /// `Organizer::apply_edit` commits `edit`.
    Apply { edit: int },
    /// `Organizer::discard_edit` gives `edit` up.
    Discard { edit: int },
    /// Some other party allocates `count` identifiers from the shared counter.
    AllocateElsewhere { count: nat },
}

/// A state in which no edit is alive, nothing is in use, and the counter has passed every
/// identifier in the IR.
pub open spec fn initial<R>(s: System<R>) -> bool {
    &&& s.edits == Map::<int, Pending<R>>::empty()
    &&& s.in_use == Set::<u64>::empty()
    &&& forall|id: u64| s.ir.contains_key(id) ==> id <= s.highest
}

/// `step` leads from `s` to `t`.
pub open spec fn next<R>(s: System<R>, step: Step<R>, t: System<R>) -> bool {
    match step {
        Step::NewEdit { edit, might_write } => {
            &&& !s.edits.contains_key(edit)
            &&& new_edit_outcome(s.ir.dom(), s.in_use, might_write) is Ok
            &&& t == (System {
                in_use: s.in_use.union(might_write),
                edits: s.edits.insert(edit, untouched(might_write)),
                ..s
            })
        },
        Step::Allocate { edit, write } => {
            &&& s.edits.contains_key(edit)
            &&& s.highest < u64::MAX
            &&& t == (System {
                highest: s.highest + 1,
                edits: s.edits.insert(edit, s.edits[edit].insert((s.highest + 1) as u64, write)),
                ..s
            })
        },
        Step::Write { edit, id, representation } => {
            &&& s.edits.contains_key(edit)
            &&& s.edits[edit].contains_key(id)
            &&& t == (System {
                edits: s.edits.insert(edit, s.edits[edit].insert(id, Some(representation))),
                ..s
            })
        },
        Step::Apply { edit } => {
            &&& s.edits.contains_key(edit)
            &&& t == (System {
                ir: committed(s.ir, s.edits[edit]),
                in_use: s.in_use.difference(s.edits[edit].dom()),
                edits: s.edits.remove(edit),
                ..s
            })
        },
        Step::Discard { edit } => {
            &&& s.edits.contains_key(edit)
            &&& t == (System {
                in_use: s.in_use.difference(s.edits[edit].dom()),
                edits: s.edits.remove(edit),
                ..s
            })
        },
        Step::AllocateElsewhere { count } => t == (System { highest: s.highest + count, ..s }),
    }
}

/// The system that consists of `organizer`, of the edits of it that are alive, with the
/// pending writes `edits`, and of a counter that stands at `highest`.
pub open spec fn system_of<R>(organizer: Organizer<R>, edits: Map<int, Pending<R>>, highest: nat)
    -> System<R> {
    System { ir: organizer.ir(), in_use: organizer.in_use(), edits, highest }
}

/// What [`Organizer::new_edit`] promises of a call that made an edit is a step of the system.
pub proof fn lemma_new_edit_is_a_step<R>(
    before: Organizer<R>,
    after: Organizer<R>,
    made: Edit<R>,
    might_write: Set<u64>,
    edits: Map<int, Pending<R>>,
    edit: int,
    highest: nat,
)
    requires
        !edits.contains_key(edit),
        after.ir() == before.ir(),
        new_edit_outcome(before.ir().dom(), before.in_use(), might_write) is Ok,
        after.in_use() == before.in_use().union(might_write),
        made@ == untouched::<R>(might_write),
    ensures
        next(
            system_of(before, edits, highest),
            Step::NewEdit { edit, might_write },
            system_of(after, edits.insert(edit, made@), highest),
        ),
{
}

/// What [`Edit::add_representation`] and [`Edit::new_id`] promise of a call that allocated
/// an identifier is a step of the system, where the identifier is the one that follows the
/// counter.
pub proof fn lemma_allocation_is_a_step<R>(
    organizer: Organizer<R>,
    before: Edit<R>,
    after: Edit<R>,
    id: u64,
    write: Option<R>,
    edits: Map<int, Pending<R>>,
    edit: int,
    highest: nat,
)
    requires
        edits.contains_key(edit),
        edits[edit] == before@,
        highest < u64::MAX,
        id == highest + 1,
        after@ == before@.insert(id, write),
    ensures
        next(
            system_of(organizer, edits, highest),
            Step::Allocate { edit, write },
            system_of(organizer, edits.insert(edit, after@), highest + 1),
        ),
{
}

/// What [`Edit::write_id`] and [`Edit::try_write_id`] promise of a call that set a write is
/// a step of the system.
pub proof fn lemma_write_is_a_step<R>(
    organizer: Organizer<R>,
    before: Edit<R>,
    after: Edit<R>,
    id: u64,
    representation: R,
    edits: Map<int, Pending<R>>,
    edit: int,
    highest: nat,
)
    requires
        edits.contains_key(edit),
        edits[edit] == before@,
        before.writable().contains(id),
        after@ == before@.insert(id, Some(representation)),
    ensures
        next(
            system_of(organizer, edits, highest),
            Step::Write { edit, id, representation },
            system_of(organizer, edits.insert(edit, after@), highest),
        ),
{
}

/// What [`Organizer::apply_edit`] promises of a call that applied an edit is a step of the
/// system.
pub proof fn lemma_apply_is_a_step<R>(
    before: Organizer<R>,
    after: Organizer<R>,
    applied: Edit<R>,
    edits: Map<int, Pending<R>>,
    edit: int,
    highest: nat,
)
    requires
        edits.contains_key(edit),
        edits[edit] == applied@,
        after.ir() == committed(before.ir(), applied@),
        after.in_use() == before.in_use().difference(applied.writable()),
    ensures
        next(
            system_of(before, edits, highest),
            Step::Apply { edit },
            system_of(after, edits.remove(edit), highest),
        ),
{
}

/// What [`Organizer::discard_edit`] promises of a call that gave an edit up is a step of the
/// system.
pub proof fn lemma_discard_is_a_step<R>(
    before: Organizer<R>,
    after: Organizer<R>,
    discarded: Edit<R>,
    edits: Map<int, Pending<R>>,
    edit: int,
    highest: nat,
)
    requires
        edits.contains_key(edit),
        edits[edit] == discarded@,
        after.ir() == before.ir(),
        after.in_use() == before.in_use().difference(discarded.writable()),
    ensures
        next(
            system_of(before, edits, highest),
            Step::Discard { edit },
            system_of(after, edits.remove(edit), highest),
        ),
{
}

/// `states` is a run of the system: it starts in an initial state, and `steps[i]` leads from
/// `states[i]` to `states[i + 1]`.
pub open spec fn run<R>(states: Seq<System<R>>, steps: Seq<Step<R>>) -> bool {
    &&& states.len() == steps.len() + 1
    &&& initial(states[0])
    &&& forall|i: int| 0 <= i < steps.len() ==> next(states[i], #[trigger] steps[i], states[i + 1])
}

/// No two edits that are alive may write the same identifier.
pub open spec fn writers_disjoint<R>(s: System<R>) -> bool {
    forall|a: int, b: int|
        s.edits.contains_key(a) && s.edits.contains_key(b) && a != b ==> (#[trigger] s.edits[a]).dom().disjoint(
            (#[trigger] s.edits[b]).dom(),
        )
}

/// What holds of every state that a run reaches.
pub open spec fn consistent<R>(s: System<R>) -> bool {
    &&& writers_disjoint(s)
    &&& forall|e: int, id: u64|
        s.edits.contains_key(e) && #[trigger] s.edits[e].contains_key(id) ==> id <= s.highest
    &&& forall|id: u64| s.ir.contains_key(id) ==> id <= s.highest
    &&& forall|e: int, id: u64|
        s.edits.contains_key(e) && #[trigger] s.edits[e].contains_key(id) && s.ir.contains_key(
            id,
        ) ==> s.in_use.contains(id)
    &&& forall|id: u64|
        s.in_use.contains(id) ==> exists|e: int|
            s.edits.contains_key(e) && #[trigger] s.edits[e].contains_key(id)
}

/// Every step keeps a consistent state consistent.
pub proof fn lemma_step_keeps_consistent<R>(s: System<R>, step: Step<R>, t: System<R>)
    requires
        consistent(s),
        next(s, step, t),
    ensures
        consistent(t),
{
    match step {
        Step::NewEdit { edit, might_write } => {
            lemma_new_edit_keeps_consistent(s, edit, might_write, t);
        },
        Step::Allocate { edit, write } => {
            let fresh = (s.highest + 1) as u64;
            assert forall|a: int, b: int|
                t.edits.contains_key(a) && t.edits.contains_key(b) && a != b implies (
            #[trigger] t.edits[a]).dom().disjoint((#[trigger] t.edits[b]).dom()) by {
                assert(s.edits[a].dom().disjoint(s.edits[b].dom()));
                assert forall|id: u64| t.edits[a].contains_key(id) implies !t.edits[b].contains_key(
                    id,
                ) by {
                    if id != fresh {
                        assert(s.edits[a].contains_key(id));
                    }
                }
            }
            assert forall|e: int, id: u64|
                t.edits.contains_key(e) && #[trigger] t.edits[e].contains_key(id) implies id
                <= t.highest by {
                if id != fresh {
                    assert(s.edits[e].contains_key(id));
                }
            }
            assert forall|e: int, id: u64|
                t.edits.contains_key(e) && #[trigger] t.edits[e].contains_key(id)
                    && t.ir.contains_key(id) implies t.in_use.contains(id) by {
                if id != fresh {
                    assert(s.edits[e].contains_key(id));
                }
            }
            assert forall|id: u64| t.in_use.contains(id) implies exists|e: int|
                t.edits.contains_key(e) && #[trigger] t.edits[e].contains_key(id) by {
                let e = choose|e: int|
                    s.edits.contains_key(e) && #[trigger] s.edits[e].contains_key(id);
                assert(t.edits[e].contains_key(id));
            }
        },
        Step::Write { edit, id, representation } => {
            assert forall|e: int| t.edits.contains_key(e) implies (#[trigger] t.edits[e]).dom()
                =~= s.edits[e].dom() by {}
            assert forall|a: int, b: int|
                t.edits.contains_key(a) && t.edits.contains_key(b) && a != b implies (
            #[trigger] t.edits[a]).dom().disjoint((#[trigger] t.edits[b]).dom()) by {
                assert(s.edits[a].dom().disjoint(s.edits[b].dom()));
            }
            assert forall|e: int, k: u64|
                t.edits.contains_key(e) && #[trigger] t.edits[e].contains_key(k) implies k
                <= t.highest by {
                assert(s.edits[e].dom().contains(k));
            }
            assert forall|e: int, k: u64|
                t.edits.contains_key(e) && #[trigger] t.edits[e].contains_key(k)
                    && t.ir.contains_key(k) implies t.in_use.contains(k) by {
                assert(s.edits[e].dom().contains(k));
            }
            assert forall|k: u64| t.in_use.contains(k) implies exists|e: int|
                t.edits.contains_key(e) && #[trigger] t.edits[e].contains_key(k) by {
                let e = choose|e: int|
                    s.edits.contains_key(e) && #[trigger] s.edits[e].contains_key(k);
                assert(t.edits[e].dom().contains(k));
            }
        },
        Step::Apply { edit } => {
            lemma_release_keeps_consistent(s, edit, t);
            assert forall|id: u64| t.ir.contains_key(id) implies id <= t.highest by {
                if !s.ir.contains_key(id) {
                    assert(s.edits[edit].contains_key(id));
                }
            }
            assert forall|e: int, id: u64|
                t.edits.contains_key(e) && #[trigger] t.edits[e].contains_key(id)
                    && t.ir.contains_key(id) implies t.in_use.contains(id) by {
                assert(s.edits[e].dom().disjoint(s.edits[edit].dom()));
                assert(s.edits[e].contains_key(id));
                assert(!s.edits[edit].contains_key(id));
            }
        },
        Step::Discard { edit } => {
            lemma_release_keeps_consistent(s, edit, t);
            assert forall|e: int, id: u64|
                t.edits.contains_key(e) && #[trigger] t.edits[e].contains_key(id)
                    && t.ir.contains_key(id) implies t.in_use.contains(id) by {
                assert(s.edits[e].dom().disjoint(s.edits[edit].dom()));
                assert(s.edits[e].contains_key(id));
                assert(!s.edits[edit].contains_key(id));
            }
        },
        Step::AllocateElsewhere { count } => {
            assert forall|e: int, id: u64|
                t.edits.contains_key(e) && #[trigger] t.edits[e].contains_key(id) implies id
                <= t.highest by {
                assert(s.edits[e].contains_key(id));
            }
            assert forall|id: u64| t.in_use.contains(id) implies exists|e: int|
                t.edits.contains_key(e) && #[trigger] t.edits[e].contains_key(id) by {
                let e = choose|e: int|
                    s.edits.contains_key(e) && #[trigger] s.edits[e].contains_key(id);
                assert(t.edits[e].contains_key(id));
            }
        },
    }
}

/// Making an edit keeps a consistent state consistent.
proof fn lemma_new_edit_keeps_consistent<R>(
    s: System<R>,
    edit: int,
    might_write: Set<u64>,
    t: System<R>,
)
    requires
        consistent(s),
        next(s, Step::NewEdit { edit, might_write }, t),
    ensures
        consistent(t),
{
    assert forall|a: int, b: int|
        t.edits.contains_key(a) && t.edits.contains_key(b) && a != b implies (
    #[trigger] t.edits[a]).dom().disjoint((#[trigger] t.edits[b]).dom()) by {
        if a == edit {
            assert(s.edits[b].dom().disjoint(might_write)) by {
                assert forall|id: u64| s.edits[b].contains_key(id) implies !might_write.contains(
                    id,
                ) by {
                    if might_write.contains(id) {
                        assert(s.ir.dom().contains(id));
                        assert(s.in_use.contains(id));
                    }
                }
            }
        } else if b == edit {
            assert(s.edits[a].dom().disjoint(might_write)) by {
                assert forall|id: u64| s.edits[a].contains_key(id) implies !might_write.contains(
                    id,
                ) by {
                    if might_write.contains(id) {
                        assert(s.ir.dom().contains(id));
                        assert(s.in_use.contains(id));
                    }
                }
            }
        } else {
            assert(s.edits[a].dom().disjoint(s.edits[b].dom()));
        }
    }
    assert forall|e: int, id: u64|
        t.edits.contains_key(e) && #[trigger] t.edits[e].contains_key(id) implies id
        <= t.highest by {
        if e == edit {
            assert(s.ir.dom().contains(id));
        } else {
            assert(s.edits[e].contains_key(id));
        }
    }
    assert forall|e: int, id: u64|
        t.edits.contains_key(e) && #[trigger] t.edits[e].contains_key(id)
            && t.ir.contains_key(id) implies t.in_use.contains(id) by {
        if e != edit {
            assert(s.edits[e].contains_key(id));
        }
    }
    assert forall|id: u64| t.in_use.contains(id) implies exists|e: int|
        t.edits.contains_key(e) && #[trigger] t.edits[e].contains_key(id) by {
        if might_write.contains(id) {
            assert(t.edits.contains_key(edit) && t.edits[edit].contains_key(id));
        } else {
            assert(s.in_use.contains(id));
            let e = choose|e: int|
                s.edits.contains_key(e) && #[trigger] s.edits[e].contains_key(id);
            assert(e != edit);
            assert(t.edits.contains_key(e) && t.edits[e].contains_key(id));
        }
    }
}

/// What applying an edit and discarding it have in common: the edit is gone, and what it might
/// write is no longer in use.
proof fn lemma_release_keeps_consistent<R>(s: System<R>, edit: int, t: System<R>)
    requires
        consistent(s),
        s.edits.contains_key(edit),
        t.edits == s.edits.remove(edit),
        t.in_use == s.in_use.difference(s.edits[edit].dom()),
        t.highest == s.highest,
    ensures
        writers_disjoint(t),
        forall|e: int, id: u64|
            t.edits.contains_key(e) && #[trigger] t.edits[e].contains_key(id) ==> id
                <= t.highest,
        forall|id: u64|
            t.in_use.contains(id) ==> exists|e: int|
                t.edits.contains_key(e) && #[trigger] t.edits[e].contains_key(id),
{
    assert forall|a: int, b: int|
        t.edits.contains_key(a) && t.edits.contains_key(b) && a != b implies (
    #[trigger] t.edits[a]).dom().disjoint((#[trigger] t.edits[b]).dom()) by {
        assert(s.edits[a].dom().disjoint(s.edits[b].dom()));
    }
    assert forall|e: int, id: u64|
        t.edits.contains_key(e) && #[trigger] t.edits[e].contains_key(id) implies id
        <= t.highest by {
        assert(s.edits[e].contains_key(id));
    }
    assert forall|id: u64| t.in_use.contains(id) implies exists|e: int|
        t.edits.contains_key(e) && #[trigger] t.edits[e].contains_key(id) by {
        let e = choose|e: int| s.edits.contains_key(e) && #[trigger] s.edits[e].contains_key(id);
        assert(e != edit);
        assert(t.edits[e].contains_key(id));
    }
}

/// Every state of a run is consistent.
pub proof fn lemma_run_consistent<R>(states: Seq<System<R>>, steps: Seq<Step<R>>, i: int)
    requires
        run(states, steps),
        0 <= i < states.len(),
    ensures
        consistent(states[i]),
    decreases i,
{
    if i > 0 {
        lemma_run_consistent(states, steps, i - 1);
        assert(next(states[i - 1], steps[i - 1], states[i - 1 + 1]));
        lemma_step_keeps_consistent(states[i - 1], steps[i - 1], states[i]);
    }
}

/// Disjoint writers: in no state of a run do two edits that are alive share an identifier
/// that they may write.
pub proof fn lemma_writers_disjoint<R>(
    states: Seq<System<R>>,
    steps: Seq<Step<R>>,
    i: int,
    a: int,
    b: int,
)
    requires
        run(states, steps),
        0 <= i < states.len(),
        states[i].edits.contains_key(a),
        states[i].edits.contains_key(b),
        a != b,
    ensures
        states[i].edits[a].dom().disjoint(states[i].edits[b].dom()),
{
    lemma_run_consistent(states, steps, i);
}

/// Snapshots grow: an identifier that is in the IR at one point of a run is in it at every
/// later point. A commit adds identifiers and replaces representations; nothing ever leaves.
pub proof fn lemma_snapshots_grow<R>(states: Seq<System<R>>, steps: Seq<Step<R>>, i: int, j: int)
    requires
        run(states, steps),
        0 <= i <= j < states.len(),
    ensures
        states[i].ir.dom().subset_of(states[j].ir.dom()),
    decreases j - i,
{
    if i < j {
        lemma_snapshots_grow(states, steps, i, j - 1);
        assert(next(states[j - 1], steps[j - 1], states[j - 1 + 1]));
    }
}

/// A commit changes only what the edit wrote: an identifier without a pending write in the
/// edit holds after the commit what it held before.
pub proof fn lemma_commit_touches_only_writes<R>(ir: Map<u64, R>, pending: Pending<R>, id: u64)
    requires
        ir.contains_key(id),
        !(pending.contains_key(id) && pending[id] is Some),
    ensures
        committed(ir, pending).contains_key(id),
        committed(ir, pending)[id] == ir[id],
{
}

/// Discarding releases: once an edit is discarded, nothing that it might write is in use,
/// and a request for any of those identifiers that are in the IR is granted.
pub proof fn lemma_discard_releases<R>(
    s: System<R>,
    edit: int,
    t: System<R>,
    might_write: Set<u64>,
)
    requires
        next(s, Step::Discard { edit }, t),
        might_write.subset_of(s.edits[edit].dom()),
        might_write.subset_of(s.ir.dom()),
    ensures
        t.ir == s.ir,
        t.in_use.disjoint(s.edits[edit].dom()),
        new_edit_outcome(t.ir.dom(), t.in_use, might_write) is Ok,
{
}

/// When no edit is alive, no identifier is in use.
pub proof fn lemma_idle_nothing_in_use<R>(states: Seq<System<R>>, steps: Seq<Step<R>>, i: int)
    requires
        run(states, steps),
        0 <= i < states.len(),
        states[i].edits == Map::<int, Pending<R>>::empty(),
    ensures
        states[i].in_use == Set::<u64>::empty(),
{
    lemma_run_consistent(states, steps, i);
    assert(states[i].in_use =~= Set::<u64>::empty());
}

} // verus!
