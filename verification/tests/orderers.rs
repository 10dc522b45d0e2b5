use ord_by_set::{Order, OrdBySet};
use std::cmp::Ordering;

#[derive(Default)]
struct EverythingEqual;

impl<T> Order<T> for EverythingEqual {
    fn order_of(&self, _: &T, _: &T) -> Ordering {
        Ordering::Equal
    }
    // The remaining items are Verus ghost declarations; they are never
    // called at run time, so unverified implementations stub them out.

    fn ord_spec(&self, _: T, _: T) -> Ordering {
        unreachable!()
    }

    fn lemma_reflexive(&self, _: T) {}

    fn lemma_dual(&self, _: T, _: T) {}

    fn lemma_transitive(&self, _: T, _: T, _: T) {}
}

#[test]
fn uniform_equality_matches_everything() {
    let mut set: OrdBySet<i32, EverythingEqual> =
        OrdBySet::new().with_items(vec![3, 5, 2, 7]);

    assert_eq!(set.count(&30), 4);
    set.remove_all(&0);
    assert!(set.is_empty());
}

struct ByPrefix;

impl Order<&'static str> for ByPrefix {
    fn order_of(&self, left: &&'static str, right: &&'static str) -> Ordering {
        left[..5].cmp(&right[..5])
    }
    // The remaining items are Verus ghost declarations; they are never
    // called at run time, so unverified implementations stub them out.

    fn ord_spec(&self, _: &'static str, _: &'static str) -> Ordering {
        unreachable!()
    }

    fn lemma_reflexive(&self, _: &'static str) {}

    fn lemma_dual(&self, _: &'static str, _: &'static str) {}

    fn lemma_transitive(&self, _: &'static str, _: &'static str, _: &'static str) {}
}

#[test]
fn prefix_grouping() {
    let set = OrdBySet::new_with_order(ByPrefix).with_items(vec![
        "00001_foo",
        "00001_bar",
        "00002_foo",
    ]);

    let id_1_subset = set.get(&"00001").unwrap();

    assert_eq!(id_1_subset.len(), 2);
    assert!(id_1_subset.contains(&"00001_bar"));
    assert!(id_1_subset.contains(&"00001_foo"));
}

#[derive(Debug, PartialEq, Clone)]
enum Val {
    String(String),
    Num(i32),
}

struct LooseOrder;

impl Order<Val> for LooseOrder {
    fn order_of(&self, left: &Val, right: &Val) -> Ordering {
        let ln: i32 = match left {
            Val::String(s) => s.parse().unwrap(),
            Val::Num(n) => *n,
        };
        let rn: i32 = match right {
            Val::String(s) => s.parse().unwrap(),
            Val::Num(n) => *n,
        };
        ln.cmp(&rn)
    }
    // The remaining items are Verus ghost declarations; they are never
    // called at run time, so unverified implementations stub them out.

    fn ord_spec(&self, _: Val, _: Val) -> Ordering {
        unreachable!()
    }

    fn lemma_reflexive(&self, _: Val) {}

    fn lemma_dual(&self, _: Val, _: Val) {}

    fn lemma_transitive(&self, _: Val, _: Val, _: Val) {}
}

#[test]
fn disambiguation_specific_lookup() {
    let set = OrdBySet::new_with_order(LooseOrder).with_items(vec![
        Val::Num(100),
        Val::String("70".into()),
        Val::Num(70),
        Val::String("30".into()),
    ]);

    assert_eq!(set.get_specific(&Val::Num(70)), Some(&Val::Num(70)));

    let both = set.get(&Val::Num(70)).unwrap();
    assert_eq!(both.len(), 2);
    assert!(both.contains(&Val::Num(70)));
    assert!(both.contains(&Val::String("70".into())));
}

#[test]
fn remove_specific_leaves_loose_neighbors() {
    let mut set = OrdBySet::new_with_order(LooseOrder).with_items(vec![
        Val::String("70".into()),
        Val::Num(70),
    ]);

    assert_eq!(set.remove_specific(&Val::Num(70)), Some(Val::Num(70)));
    assert_eq!(set.get(&Val::Num(70)).unwrap(), &[Val::String("70".into())]);
    assert_eq!(set.remove_specific(&Val::Num(70)), None);
}

#[test]
fn contains_specific_sees_only_exact_matches() {
    let set = OrdBySet::new_with_order(LooseOrder).with_items(vec![
        Val::String("70".into()),
        Val::Num(70),
    ]);

    assert!(set.contains_specific(&Val::Num(70)));
    assert!(set.contains_specific(&Val::String("70".into())));
    assert!(!set.contains_specific(&Val::Num(71)));
    assert!(set.contains(&Val::Num(70)));
}

#[test]
fn get_specific_mut_edits_exact_match() {
    let mut set = OrdBySet::new_with_order(LooseOrder).with_items(vec![
        Val::String("70".into()),
        Val::Num(70),
    ]);

    if let Some(v) = set.get_specific_mut(&Val::Num(70)) {
        *v = Val::Num(71);
    } else {
        panic!("expected an exact match");
    }
    // No re-sort happens here, so check the edit on the raw contents.
    let items = set.iter();
    assert!(items.contains(&Val::Num(71)));
    assert!(!items.contains(&Val::Num(70)));
}
