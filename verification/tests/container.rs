use ord_by_set::OrdBySet;

fn ord_set(from: &[i32]) -> OrdBySet<i32> {
    let mut set = OrdBySet::new();

    for item in from.iter().copied() {
        set.insert(item);
    }

    set
}

#[test]
fn empty_index_range() {
    assert!(OrdBySet::<usize>::new().get_index_range_of(&0).is_none());
}

#[test]
fn index_range_presorted() {
    assert_eq!(
        ord_set(&[1, 2, 3, 3, 3, 4]).get_index_range_of(&3),
        Some(2..5)
    );
    assert_eq!(ord_set(&[1, 1, 1]).get_index_range_of(&1), Some(0..3));
}

#[test]
fn index_range_unsorted() {
    assert_eq!(
        ord_set(&[2, 1, 3, 1, 3, 4]).get_index_range_of(&3),
        Some(3..5)
    );
}

#[test]
fn slice_range_unsorted() {
    assert_eq!(
        OrdBySet::fully_ordered()
            .with_items(vec![2, 1, 3, 1, 3, 4])
            .range(&2, &4)
            .unwrap()
            .iter()
            .copied()
            .collect::<Vec<_>>(),
        [2, 3, 3, 4]
    );
}

#[test]
fn sorted_after_each_insert() {
    let mut set = OrdBySet::<i32>::fully_ordered();
    for v in [5, 1, 4, 4, 2, 9, 0] {
        set.insert(v);
        let items = set.iter();
        for w in items.windows(2) {
            assert!(w[0] <= w[1]);
        }
    }
    assert_eq!(set.len(), 7);
}

#[test]
fn equal_range_of_three() {
    let set = OrdBySet::<i32>::fully_ordered().with_items(vec![1, 2, 3, 3, 3, 4]);
    assert_eq!(set.get_index_range_of(&3), Some(2..5));
    assert_eq!(set.count(&3), 3);
    assert_eq!(set.get(&3).unwrap(), &[3, 3, 3]);
}

#[test]
fn insertion_order_independent() {
    let incremental = ord_set(&[2, 1, 3, 1, 3, 4]);
    let bulk = OrdBySet::<i32>::fully_ordered().with_items(vec![2, 1, 3, 1, 3, 4]);
    assert_eq!(incremental.iter(), bulk.iter());
    assert_eq!(incremental.iter(), &vec![1, 1, 2, 3, 3, 4]);
    assert_eq!(
        incremental.get_index_range_of(&3),
        bulk.get_index_range_of(&3)
    );
    assert_eq!(incremental.get_index_range_of(&3), Some(3..5));
}

#[test]
fn bounded_range_inclusive() {
    let set = OrdBySet::<i32>::fully_ordered().with_items(vec![1, 2, 3, 3, 4]);
    assert_eq!(set.range(&2, &4).unwrap(), &[2, 3, 3, 4]);
    assert!(set.range(&4, &2).is_none());
}

#[test]
fn bounded_range_misses() {
    let set = OrdBySet::<i32>::fully_ordered().with_items(vec![1, 10]);
    assert!(set.range(&2, &4).is_none());
    assert!(set.range(&5, &5).is_none());
}

#[test]
fn drain_round_trip() {
    let mut set = ord_set(&[1, 2, 3, 3, 3, 4]);
    let len_before = set.len();
    let count_before = set.count(&3);
    let drained = set.drain(&3);
    assert_eq!(drained, vec![3, 3, 3]);
    assert_eq!(set.count(&3), 0);
    for v in drained {
        set.insert(v);
    }
    assert_eq!(set.len(), len_before);
    assert_eq!(set.count(&3), count_before);
    assert_eq!(set.iter(), &vec![1, 2, 3, 3, 3, 4]);
}

#[test]
fn drain_on_no_match_is_empty() {
    let mut set = ord_set(&[1, 2]);
    assert_eq!(set.drain(&9), vec![]);
    assert_eq!(set.len(), 2);
}

#[test]
fn remove_all_reports_removal() {
    let mut set = ord_set(&[1, 3, 3, 4]);
    assert!(set.remove_all(&3));
    assert_eq!(set.iter(), &vec![1, 4]);
    assert!(!set.remove_all(&3));
}

#[test]
fn remove_first_takes_one() {
    let mut set = ord_set(&[1, 3, 3, 4]);
    assert_eq!(set.remove_first(&3), Some(3));
    assert_eq!(set.count(&3), 1);
    assert_eq!(set.remove_first(&7), None);
}

#[test]
fn retain_keeps_order() {
    let mut set = ord_set(&[5, 1, 4, 2, 3]);
    set.retain(|v| v % 2 == 1);
    assert_eq!(set.iter(), &vec![1, 3, 5]);
}

#[test]
fn get_first_finds_an_equivalent() {
    let set = ord_set(&[1, 2, 2, 3]);
    assert_eq!(set.get_first(&2), Some(&2));
    assert_eq!(set.get_first(&9), None);
}

#[test]
fn get_first_mut_edits_without_resort() {
    let mut set = ord_set(&[1, 2, 3]);
    *set.get_first_mut(&1).unwrap() = 99;
    assert_eq!(set.iter(), &vec![99, 2, 3]);
    assert!(set.get_first_mut(&55).is_none());
}

#[test]
fn iter_mut_edits_in_place() {
    let mut set = ord_set(&[3, 1, 2]);
    for v in set.iter_mut() {
        *v *= 10;
    }
    assert_eq!(set.iter(), &vec![10, 20, 30]);
}

#[test]
fn contains_and_count() {
    let set = ord_set(&[1, 2, 2]);
    assert!(set.contains(&2));
    assert!(!set.contains(&5));
    assert_eq!(set.count(&2), 2);
    assert_eq!(set.count(&5), 0);
}

#[test]
fn len_capacity_clear() {
    let mut set = ord_set(&[1, 2, 3]);
    assert_eq!(set.len(), 3);
    assert!(set.capacity() >= 3);
    assert!(!set.is_empty());
    set.clear();
    assert!(set.is_empty());
    assert_eq!(set.len(), 0);
}

#[test]
fn into_items_yields_sorted_storage() {
    let set = ord_set(&[2, 1]);
    assert_eq!(set.into_items(), vec![1, 2]);
}

#[test]
fn default_is_empty() {
    let set: OrdBySet<u64> = OrdBySet::default();
    assert!(set.is_empty());
}
