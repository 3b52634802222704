use harvest::HarvestIR;
use harvest::Id;
use harvest::IdSet;
use harvest::Representation;
use std::collections::HashSet;
use std::sync::atomic::AtomicU64;

/// A simple Representation that contains no data.
#[derive(Debug, Eq, Hash, PartialEq)]
pub struct EmptyRepresentation;

/// A Representation that contains only an ID number.
#[derive(Debug, Eq, Hash, PartialEq)]
pub struct IdRepresentation(pub usize);

/// The representations of this file's IR.
#[derive(Debug, Eq, Hash, PartialEq)]
enum Repr {
    Empty(EmptyRepresentation),
    Id(IdRepresentation),
}

impl Representation for Repr {
    fn name(&self) -> &'static str {
        match self {
            Repr::Empty(_) => "empty",
            Repr::Id(_) => "id",
        }
    }

    fn render(&self) -> String {
        match self {
            Repr::Empty(_) => "EmptyRepresentation".to_owned(),
            Repr::Id(id) => format!("IdRepresentation({})", id.0),
        }
    }
}

fn id_representation(repr: &Repr) -> Option<&IdRepresentation> {
    match repr {
        Repr::Id(id) => Some(id),
        _ => None,
    }
}

#[test]
fn get_by_representation() {
    let highest_id = AtomicU64::new(0);
    let mut ir = HarvestIR::default();
    ir.add_representation(Repr::Empty(EmptyRepresentation), &highest_id);
    let b = ir
        .add_representation(Repr::Id(IdRepresentation(1)), &highest_id)
        .unwrap();
    ir.add_representation(Repr::Empty(EmptyRepresentation), &highest_id);
    let d = ir
        .add_representation(Repr::Id(IdRepresentation(2)), &highest_id)
        .unwrap();
    assert_eq!(
        HashSet::<(Id, &IdRepresentation)>::from_iter(ir.get_by_representation(id_representation)),
        HashSet::from([(b, &IdRepresentation(1)), (d, &IdRepresentation(2))])
    );
}

#[test]
fn iteration_is_in_ascending_order_of_the_ids() {
    let highest_id = AtomicU64::new(0);
    let mut ir = HarvestIR::new();
    assert_eq!(ir.len(), 0);
    assert!(ir.ids().is_empty());
    let ids: Vec<Id> = (0..12)
        .map(|n| {
            ir.add_representation(Repr::Id(IdRepresentation(n)), &highest_id)
                .unwrap()
        })
        .collect();
    assert_eq!(ir.ids(), ids);
    assert_eq!(ir.len(), 12);
    let listed: Vec<(Id, usize)> = ir
        .iter()
        .into_iter()
        .map(|(id, repr)| (id, id_representation(repr).unwrap().0))
        .collect();
    let expected: Vec<(Id, usize)> = ids.iter().copied().zip(0..12).collect();
    assert_eq!(listed, expected);
    let picked: Vec<usize> = ir
        .get_by_representation(|repr: &Repr| id_representation(repr).filter(|id| id.0 % 5 == 0))
        .into_iter()
        .map(|(_, id)| id.0)
        .collect();
    assert_eq!(picked, [0, 5, 10]);
}

#[test]
fn lookup_by_id() {
    let highest_id = AtomicU64::new(6);
    let mut ir = HarvestIR::new();
    let a = ir
        .add_representation(Repr::Empty(EmptyRepresentation), &highest_id)
        .unwrap();
    let unknown = Id::new(&highest_id).unwrap();
    assert_eq!(a.number(), 7);
    assert!(ir.contains_id(a));
    assert!(!ir.contains_id(unknown));
    assert_eq!(ir.get(a), Some(&Repr::Empty(EmptyRepresentation)));
    assert_eq!(ir.get(unknown), None);
}

#[test]
fn a_copy_shares_nothing_that_can_change() {
    let highest_id = AtomicU64::new(0);
    let mut ir = HarvestIR::new();
    let a = ir
        .add_representation(Repr::Id(IdRepresentation(1)), &highest_id)
        .unwrap();
    let copy = ir.clone();
    let b = ir
        .add_representation(Repr::Id(IdRepresentation(2)), &highest_id)
        .unwrap();
    assert_eq!(copy.ids(), [a]);
    assert_eq!(ir.ids(), [a, b]);
}

#[test]
fn an_exhausted_counter_leaves_the_ir_alone() {
    let highest_id = AtomicU64::new(u64::MAX);
    let mut ir = HarvestIR::new();
    assert!(ir
        .add_representation(Repr::Empty(EmptyRepresentation), &highest_id)
        .is_none());
    assert_eq!(ir.len(), 0);
}

#[test]
fn id_sets() {
    let [a, b, c] = Id::array_after::<3>(0).unwrap();
    let mut set = IdSet::new();
    assert!(set.is_empty());
    assert!(set.insert(b));
    assert!(set.insert(a));
    assert!(!set.insert(b));
    assert_eq!(set.len(), 2);
    assert!(set.contains(a));
    assert!(!set.contains(c));
    assert_eq!(set, IdSet::from([a, b]));
    assert_eq!(set, IdSet::from_slice(&[b, a, b]));
    assert_eq!(set.clone(), set);
    assert_eq!(HashSet::<Id>::from_iter(set.to_vec()), HashSet::from([a, b]));
    assert!(set.remove(a));
    assert!(!set.remove(a));
    assert_eq!(set.to_vec(), [b]);
    assert_eq!(IdSet::default(), IdSet::from([]));
}
