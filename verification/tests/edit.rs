use harvest::edit::Edit;
use harvest::edit::NewEditError;
use harvest::edit::NotWritable;
use harvest::edit::Organizer;
use harvest::edit::WrongOrganizer;
use harvest::HarvestIR;
use harvest::Id;
use harvest::IdSet;
use harvest::Representation;
use std::collections::HashSet;
use std::sync::atomic::AtomicU64;
use std::sync::Arc;

/// A simple Representation that contains no data.
#[derive(Debug, PartialEq)]
struct EmptyRepresentation;

impl Representation for EmptyRepresentation {
    fn name(&self) -> &'static str {
        "empty"
    }

    fn render(&self) -> String {
        "EmptyRepresentation".to_owned()
    }
}

/// A Representation that contains only a number.
#[derive(Debug, PartialEq)]
struct Numbered(u32);

impl Representation for Numbered {
    fn name(&self) -> &'static str {
        "numbered"
    }

    fn render(&self) -> String {
        format!("Numbered({})", self.0)
    }
}

fn applied<R>(result: Result<(), (WrongOrganizer, Edit<R>)>) -> Result<(), WrongOrganizer> {
    result.map_err(|(error, _)| error)
}

#[test]
fn organizer() {
    let highest_id = Arc::new(AtomicU64::new(0));
    let mut organizer = Organizer::new(highest_id.clone()).unwrap();

    // Apply an edit to add two new reprs to the IR.
    let mut edit = organizer
        .new_edit(&[].into())
        .expect("no-ID new_edit failed");
    let [a, b, c] = [
        edit.add_representation(EmptyRepresentation).unwrap(),
        edit.add_representation(EmptyRepresentation).unwrap(),
        edit.new_id().unwrap(),
    ];
    assert_eq!(applied(organizer.apply_edit(edit)), Ok(()));
    // a and b should be applied but c should not.
    assert_eq!(
        HashSet::<Id>::from_iter(organizer.snapshot().ids()),
        HashSet::from([a, b]),
        "apply_edit set incorrect representations"
    );

    // Nested change creation: create two Edits. Apply the second one, then drop the first.
    let mut edit1 = organizer.new_edit(&[a].into()).expect("new_edit failed");
    let mut edit2 = organizer.new_edit(&[b].into()).expect("new_edit failed");
    assert_eq!(organizer.ids_in_use(), IdSet::from([a, b]));
    let [_, _] = [(); 2].map(|_| edit1.add_representation(EmptyRepresentation).unwrap());
    let [f, g] = [(); 2].map(|_| edit2.add_representation(EmptyRepresentation).unwrap());
    assert_eq!(
        applied(organizer.apply_edit(edit2)),
        Ok(()),
        "apply_edit failed"
    );
    assert_eq!(organizer.ids_in_use(), IdSet::from([a]));
    // a, b, f, and g should be set but d and e should not.
    assert_eq!(applied(organizer.discard_edit(edit1)), Ok(()));
    assert_eq!(organizer.ids_in_use(), IdSet::from([]));
    assert_eq!(
        HashSet::<Id>::from_iter(organizer.snapshot().ids()),
        HashSet::from([a, b, f, g])
    );

    // Swap Edits between Organizer instances.
    assert_eq!(
        applied(
            organizer.apply_edit(
                Organizer::new(highest_id.clone())
                    .unwrap()
                    .new_edit(&[].into())
                    .expect("new_edit failed")
            )
        ),
        Err(WrongOrganizer),
        "apply_edit accepted Edit from another Organizer"
    );

    // new_edit error cases.
    let edit = organizer.new_edit(&[f].into()).expect("new_edit failed");
    assert_eq!(
        organizer.new_edit(&[c, f].into()).err(),
        Some(NewEditError::UnknownId),
        "with both an unknown ID and an in use ID, new_edit should return an UnknownId error"
    );
    assert_eq!(
        organizer.new_edit(&[f, g].into()).err(),
        Some(NewEditError::IdInUse),
        "new_edit accepted in use ID"
    );
    assert_eq!(applied(organizer.discard_edit(edit)), Ok(()));
}

#[test]
fn edit() {
    let highest_id = Arc::new(AtomicU64::new(0));
    let mut ir = HarvestIR::new();
    let a = ir
        .add_representation(EmptyRepresentation, &highest_id)
        .unwrap();
    let b = ir
        .add_representation(EmptyRepresentation, &highest_id)
        .unwrap();
    let c = Id::new(&highest_id).unwrap();
    let mut organizer = Organizer::with_harvest_ir(ir, highest_id.clone()).unwrap();
    let mut edit = organizer.new_edit(&[a, b].into()).unwrap();
    let d = edit.add_representation(EmptyRepresentation).unwrap();
    let e = edit.new_id().unwrap();
    assert_eq!(
        edit.try_write_id(a, EmptyRepresentation),
        Ok(()),
        "failed to set writable ID"
    );
    assert_eq!(
        edit.try_write_id(c, EmptyRepresentation),
        Err(NotWritable),
        "set unwritable ID"
    );
    edit.write_id(d, EmptyRepresentation);
    edit.write_id(e, EmptyRepresentation);
    assert_eq!(
        HashSet::<Id>::from_iter(edit.changed_ids()),
        HashSet::from([a, d, e]),
        "changed IDs incorrect"
    );
}

#[test]
fn edit_lists_what_it_may_write_in_ascending_order() {
    let highest_id = Arc::new(AtomicU64::new(0));
    let mut ir = HarvestIR::new();
    let a = ir.add_representation(Numbered(1), &highest_id).unwrap();
    let b = ir.add_representation(Numbered(2), &highest_id).unwrap();
    let mut organizer = Organizer::with_harvest_ir(ir, highest_id).unwrap();
    let mut edit = organizer.new_edit(&[b, a].into()).unwrap();
    assert_eq!(edit.writable_ids(), [a, b]);
    assert_eq!(edit.changed_ids(), []);
    let c = edit.new_id().unwrap();
    let d = edit.add_representation(Numbered(4)).unwrap();
    assert_eq!(edit.writable_ids(), [a, b, c, d]);
    assert_eq!(edit.changed_ids(), [d]);
    assert!(edit.is_writable(c));
    edit.write_id(b, Numbered(20));
    assert_eq!(edit.changed_ids(), [b, d]);
}

#[test]
fn apply_replaces_and_inserts_and_leaves_the_rest() {
    let highest_id = Arc::new(AtomicU64::new(0));
    let mut ir = HarvestIR::new();
    let a = ir.add_representation(Numbered(1), &highest_id).unwrap();
    let b = ir.add_representation(Numbered(2), &highest_id).unwrap();
    let mut organizer = Organizer::with_harvest_ir(ir, highest_id).unwrap();
    let before = organizer.snapshot();
    let mut edit = organizer.new_edit(&[a, b].into()).unwrap();
    edit.write_id(a, Numbered(10));
    let c = edit.add_representation(Numbered(3)).unwrap();
    let d = edit.new_id().unwrap();
    assert_eq!(applied(organizer.apply_edit(edit)), Ok(()));
    let after = organizer.snapshot();
    // The edit's writes are all there, and what it did not write is as it was.
    assert_eq!(after.get(a), Some(&Numbered(10)));
    assert_eq!(after.get(b), Some(&Numbered(2)));
    assert_eq!(after.get(c), Some(&Numbered(3)));
    assert_eq!(after.get(d), None);
    assert_eq!(after.ids(), [a, b, c]);
    // A snapshot taken before the commit sees none of the edit's writes.
    assert_eq!(before.get(a), Some(&Numbered(1)));
    assert_eq!(before.ids(), [a, b]);
    assert!(organizer.ids_in_use().is_empty());
}

#[test]
fn snapshots_never_lose_an_id() {
    let highest_id = Arc::new(AtomicU64::new(0));
    let mut organizer = Organizer::new(highest_id).unwrap();
    let mut snapshots = vec![organizer.snapshot()];
    for round in 0..4 {
        let known: Vec<Id> = organizer.snapshot().ids();
        let mut edit = organizer.new_edit(&IdSet::from_slice(&known)).unwrap();
        if let Some(first) = known.first() {
            edit.write_id(*first, Numbered(100 + round));
        }
        edit.add_representation(Numbered(round)).unwrap();
        assert_eq!(applied(organizer.apply_edit(edit)), Ok(()));
        snapshots.push(organizer.snapshot());
    }
    for (earlier, later) in snapshots.iter().zip(snapshots.iter().skip(1)) {
        for id in earlier.ids() {
            assert!(later.contains_id(id));
        }
        assert_eq!(later.len(), earlier.len() + 1);
    }
}

#[test]
fn discarding_frees_the_ids_at_once() {
    let highest_id = Arc::new(AtomicU64::new(0));
    let mut ir = HarvestIR::new();
    let a = ir.add_representation(Numbered(1), &highest_id).unwrap();
    let b = ir.add_representation(Numbered(2), &highest_id).unwrap();
    let mut organizer = Organizer::with_harvest_ir(ir, highest_id).unwrap();
    let mut edit = organizer.new_edit(&[a, b].into()).unwrap();
    edit.write_id(a, Numbered(10));
    edit.add_representation(Numbered(3)).unwrap();
    assert_eq!(
        organizer.new_edit(&[a].into()).err(),
        Some(NewEditError::IdInUse)
    );
    assert_eq!(applied(organizer.discard_edit(edit)), Ok(()));
    // The IR is as it was, and each of the ids can be claimed again.
    assert_eq!(organizer.snapshot().get(a), Some(&Numbered(1)));
    assert_eq!(organizer.snapshot().ids(), [a, b]);
    let again = organizer.new_edit(&[a].into()).unwrap();
    let other = organizer.new_edit(&[b].into()).unwrap();
    assert_eq!(organizer.ids_in_use(), IdSet::from([a, b]));
    assert_eq!(applied(organizer.discard_edit(again)), Ok(()));
    assert_eq!(applied(organizer.discard_edit(other)), Ok(()));
}

#[test]
fn an_edit_of_another_organizer_is_handed_back() {
    let highest_id = Arc::new(AtomicU64::new(0));
    let mut ir = HarvestIR::new();
    let a = ir.add_representation(Numbered(1), &highest_id).unwrap();
    let mut first = Organizer::with_harvest_ir(ir.clone(), highest_id.clone()).unwrap();
    let mut second = Organizer::with_harvest_ir(ir, highest_id).unwrap();
    let mut edit = first.new_edit(&[a].into()).unwrap();
    edit.write_id(a, Numbered(5));
    // Whatever the state of the other organizer, it refuses the edit and stays as it was.
    let Err((WrongOrganizer, edit)) = second.apply_edit(edit) else {
        panic!("apply_edit accepted Edit from another Organizer");
    };
    assert_eq!(second.snapshot().get(a), Some(&Numbered(1)));
    assert!(second.ids_in_use().is_empty());
    let Err((WrongOrganizer, edit)) = second.discard_edit(edit) else {
        panic!("discard_edit accepted Edit from another Organizer");
    };
    assert_eq!(first.ids_in_use(), IdSet::from([a]));
    assert_eq!(applied(first.apply_edit(edit)), Ok(()));
    assert_eq!(first.snapshot().get(a), Some(&Numbered(5)));
    assert!(first.ids_in_use().is_empty());
}

#[test]
fn live_edits_write_disjoint_ids() {
    let highest_id = Arc::new(AtomicU64::new(0));
    let mut ir = HarvestIR::new();
    let a = ir.add_representation(Numbered(1), &highest_id).unwrap();
    let b = ir.add_representation(Numbered(2), &highest_id).unwrap();
    let mut organizer = Organizer::with_harvest_ir(ir, highest_id).unwrap();
    let mut first = organizer.new_edit(&[a].into()).unwrap();
    let mut second = organizer.new_edit(&[b].into()).unwrap();
    for _ in 0..3 {
        first.add_representation(Numbered(0)).unwrap();
        second.new_id().unwrap();
    }
    let first_ids: HashSet<Id> = first.writable_ids().into_iter().collect();
    let second_ids: HashSet<Id> = second.writable_ids().into_iter().collect();
    assert_eq!(first_ids.len(), 4);
    assert_eq!(second_ids.len(), 4);
    assert!(first_ids.is_disjoint(&second_ids));
}

#[test]
fn organizers_of_different_identifiers_refuse_each_other() {
    let highest_id = Arc::new(AtomicU64::new(0));
    let [first_identity, second_identity] = Id::new_array(&highest_id).unwrap();
    let mut first: Organizer<Numbered> =
        Organizer::with_identity(HarvestIR::new(), highest_id.clone(), first_identity);
    let mut second: Organizer<Numbered> =
        Organizer::with_identity(HarvestIR::new(), highest_id.clone(), second_identity);

    // Give the first organizer some state: an identifier in the IR, and an edit that is alive.
    let mut setup = first.new_edit(&[].into()).unwrap();
    let a = setup.add_representation(Numbered(1)).unwrap();
    assert_eq!(applied(first.apply_edit(setup)), Ok(()));
    let alive = first.new_edit(&[a].into()).unwrap();
    let ir_before = first.snapshot();
    let in_use_before = first.ids_in_use().to_vec();

    let mut foreign = second.new_edit(&[].into()).unwrap();
    foreign.add_representation(Numbered(2)).unwrap();
    let (error, foreign) = first.apply_edit(foreign).err().unwrap();
    assert_eq!(error, WrongOrganizer);
    assert_eq!(first.snapshot().ids(), ir_before.ids());
    assert_eq!(first.ids_in_use().to_vec(), in_use_before);
    let (error, foreign) = first.discard_edit(foreign).err().unwrap();
    assert_eq!(error, WrongOrganizer);
    assert_eq!(first.ids_in_use().to_vec(), in_use_before);

    // Each takes its own.
    assert_eq!(applied(second.apply_edit(foreign)), Ok(()));
    assert_eq!(applied(second.apply_edit(alive)), Err(WrongOrganizer));
}

#[test]
fn an_organizer_is_built_as_it_is_asked() {
    let highest_id = Arc::new(AtomicU64::new(0));
    let mut ir = HarvestIR::new();
    let a = ir.add_representation(Numbered(7), &highest_id).unwrap();
    let identity = Id::new(&highest_id).unwrap();
    let organizer = Organizer::with_identity(ir, highest_id.clone(), identity);
    assert_eq!(organizer.snapshot().ids(), [a]);
    assert!(organizer.ids_in_use().is_empty());
    // An organizer that draws its identity takes a new identifier from the counter.
    let drawn: Organizer<Numbered> = Organizer::new(highest_id.clone()).unwrap();
    assert!(drawn.snapshot().ids().is_empty());
    assert_eq!(Id::new(&highest_id).unwrap().number(), 4);
}
