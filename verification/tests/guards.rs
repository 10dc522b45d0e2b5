use ord_by_set::{MutRefGuard, Order, OrdBySet};
use std::cmp::Ordering;

#[derive(Clone, Debug, PartialEq)]
struct Record {
    priority: i32,
    name: &'static str,
}

struct ByPriority;

impl Order<Record> for ByPriority {
    fn order_of(&self, left: &Record, right: &Record) -> Ordering {
        left.priority.cmp(&right.priority)
    }
    // The remaining items are Verus ghost declarations; they are never
    // called at run time, so unverified implementations stub them out.

    fn ord_spec(&self, _: Record, _: Record) -> Ordering {
        unreachable!()
    }

    fn lemma_reflexive(&self, _: Record) {}

    fn lemma_dual(&self, _: Record, _: Record) {}

    fn lemma_transitive(&self, _: Record, _: Record, _: Record) {}
}

#[test]
fn guard_resort_moves_record() {
    let set = OrdBySet::new_with_order(ByPriority).with_items(vec![
        Record { priority: 1, name: "a" },
        Record { priority: 2, name: "b" },
        Record { priority: 3, name: "c" },
    ]);

    let probe = Record { priority: 2, name: "" };
    let Ok(mut guard) = set.get_mut(&probe) else {
        panic!("expected a matching record");
    };
    assert_eq!(guard.len(), 1);
    guard.get_at(0);
    guard.get_mut_at(0).priority = 9;
    let set = guard.release();

    let found = set.get(&Record { priority: 9, name: "" }).unwrap();
    assert_eq!(found, &[Record { priority: 9, name: "b" }]);
    let priorities: Vec<i32> = set.iter().iter().map(|r| r.priority).collect();
    assert_eq!(priorities, vec![1, 3, 9]);
}

#[test]
fn get_mut_misses_return_the_set() {
    let set = OrdBySet::<i32>::fully_ordered().with_items(vec![1, 2]);
    match set.get_mut(&7) {
        Ok(_) => panic!("nothing should match"),
        Err(set) => assert_eq!(set.len(), 2),
    }
}

#[test]
fn range_guard_resort() {
    let set = OrdBySet::<i32>::fully_ordered().with_items(vec![1, 2, 3, 4]);
    let Ok(mut guard) = set.range_mut(&2, &3) else {
        panic!("expected a window");
    };
    assert_eq!(guard.len(), 2);
    *guard.get_mut_at(1) = 0;
    let set = guard.release();
    assert_eq!(set.iter(), &vec![0, 1, 2, 4]);
}

#[test]
fn range_mut_inverted_bounds_return_the_set() {
    let set = OrdBySet::<i32>::fully_ordered().with_items(vec![1, 2, 3]);
    match set.range_mut(&3, &1) {
        Ok(_) => panic!("inverted bounds must not match"),
        Err(set) => assert_eq!(set.len(), 3),
    }
}

#[test]
fn single_guard_resort() {
    let set = OrdBySet::<i32>::fully_ordered().with_items(vec![1, 2, 3]);
    let mut guard = MutRefGuard::new(set, 0);
    assert_eq!(*guard.get(), 1);
    *guard.get_mut() = 10;
    let set = guard.release();
    assert_eq!(set.iter(), &vec![2, 3, 10]);
}
