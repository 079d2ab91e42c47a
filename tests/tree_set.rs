use memscan::order::KeyCmp;
use memscan::tree_set::BPlusTreeSet;

fn set_of(items: &[i32]) -> BPlusTreeSet<i32> {
    BPlusTreeSet::from_vec(items.to_vec())
}

#[test]
fn test_new_and_empty() {
    let set: BPlusTreeSet<i32> = BPlusTreeSet::new(3);
    assert!(set.is_empty());
    assert_eq!(set.len(), 0);
}

#[test]
fn test_insert_and_contains() {
    let mut set = BPlusTreeSet::new(3);
    assert!(set.insert(5));
    assert!(set.insert(3));
    assert!(set.insert(7));
    assert!(!set.insert(5));
    assert_eq!(set.len(), 3);
    assert!(set.contains(&5));
    assert!(set.contains(&3));
    assert!(set.contains(&7));
    assert!(!set.contains(&1));
}

#[test]
fn test_insert_many_elements() {
    let mut set = BPlusTreeSet::new(4);
    for i in 0..100 {
        assert!(set.insert(i));
    }
    assert_eq!(set.len(), 100);
    for i in 0..100 {
        assert!(set.contains(&i));
    }
}

#[test]
fn set_test_remove() {
    let mut set = BPlusTreeSet::new(3);
    set.insert(1);
    set.insert(2);
    set.insert(3);
    set.insert(4);
    set.insert(5);
    assert!(set.remove(&3));
    assert!(!set.contains(&3));
    assert_eq!(set.len(), 4);
    assert!(!set.remove(&3));
    assert!(set.remove(&1));
    assert!(set.remove(&5));
    assert_eq!(set.len(), 2);
    assert!(set.contains(&2));
    assert!(set.contains(&4));
}

#[test]
fn test_clear() {
    let mut set = BPlusTreeSet::new(3);
    set.insert(1);
    set.insert(2);
    set.insert(3);
    assert_eq!(set.len(), 3);
    set.clear();
    assert!(set.is_empty());
    assert_eq!(set.len(), 0);
    assert!(!set.contains(&1));
}

#[test]
fn test_iter() {
    let mut set = BPlusTreeSet::new(3);
    set.insert(5);
    set.insert(1);
    set.insert(3);
    set.insert(7);
    set.insert(2);
    let collected = set.iter();
    assert_eq!(collected, vec![1, 2, 3, 5, 7]);
}

#[test]
fn test_into_iterator() {
    let mut set = BPlusTreeSet::new(3);
    set.insert(3);
    set.insert(1);
    set.insert(2);
    let collected: Vec<i32> = set.iter().into_iter().collect();
    assert_eq!(collected, vec![1, 2, 3]);
}

#[test]
fn test_from_iter() {
    let set = set_of(&[5, 3, 7, 1, 9]);
    assert_eq!(set.len(), 5);
    assert!(set.contains(&1));
    assert!(set.contains(&3));
    assert!(set.contains(&5));
    assert!(set.contains(&7));
    assert!(set.contains(&9));
}

#[test]
fn test_from_array() {
    let set = BPlusTreeSet::from_vec(vec![1, 2, 3, 4, 5]);
    assert_eq!(set.len(), 5);
    for i in 1..=5 {
        assert!(set.contains(&i));
    }
}

#[test]
fn test_extend() {
    let mut set = BPlusTreeSet::new(3);
    set.insert(1);
    set.insert(2);
    set.extend(vec![3, 4, 5]);
    assert_eq!(set.len(), 5);
    for i in 1..=5 {
        assert!(set.contains(&i));
    }
}

#[test]
fn test_is_subset() {
    let set1 = set_of(&[1, 2, 3]);
    let set2 = set_of(&[1, 2, 3, 4, 5]);
    let set3 = set_of(&[1, 2, 6]);
    assert!(set1.is_subset(&set2));
    assert!(!set2.is_subset(&set1));
    assert!(!set1.is_subset(&set3));
    assert!(set1.is_subset(&set1));
}

#[test]
fn test_is_superset() {
    let set1 = set_of(&[1, 2, 3, 4, 5]);
    let set2 = set_of(&[1, 2, 3]);
    assert!(set1.is_superset(&set2));
    assert!(!set2.is_superset(&set1));
    assert!(set1.is_superset(&set1));
}

#[test]
fn test_is_disjoint() {
    let set1 = set_of(&[1, 2, 3]);
    let set2 = set_of(&[4, 5, 6]);
    let set3 = set_of(&[3, 4, 5]);
    assert!(set1.is_disjoint(&set2));
    assert!(!set1.is_disjoint(&set3));
    assert!(!set2.is_disjoint(&set3));
}

#[test]
fn test_union() {
    let set1 = set_of(&[1, 2, 3]);
    let set2 = set_of(&[3, 4, 5]);
    let union = set1.union(&set2);
    assert_eq!(union, vec![1, 2, 3, 4, 5]);
}

#[test]
fn test_union_operator() {
    let set1 = set_of(&[1, 2, 3]);
    let set2 = set_of(&[3, 4, 5]);
    let union = set1.union_set(&set2);
    assert_eq!(union.len(), 5);
    for i in 1..=5 {
        assert!(union.contains(&i));
    }
}

#[test]
fn test_intersection() {
    let set1 = set_of(&[1, 2, 3, 4]);
    let set2 = set_of(&[3, 4, 5, 6]);
    let intersection = set1.intersection(&set2);
    assert_eq!(intersection, vec![3, 4]);
}

#[test]
fn test_intersection_operator() {
    let set1 = set_of(&[1, 2, 3, 4]);
    let set2 = set_of(&[3, 4, 5, 6]);
    let intersection = set1.intersection_set(&set2);
    assert_eq!(intersection.len(), 2);
    assert!(intersection.contains(&3));
    assert!(intersection.contains(&4));
}

#[test]
fn test_difference() {
    let set1 = set_of(&[1, 2, 3, 4]);
    let set2 = set_of(&[3, 4, 5, 6]);
    let diff = set1.difference(&set2);
    assert_eq!(diff, vec![1, 2]);
}

#[test]
fn test_difference_operator() {
    let set1 = set_of(&[1, 2, 3, 4]);
    let set2 = set_of(&[3, 4, 5, 6]);
    let diff = set1.difference_set(&set2);
    assert_eq!(diff.len(), 2);
    assert!(diff.contains(&1));
    assert!(diff.contains(&2));
}

#[test]
fn test_symmetric_difference() {
    let set1 = set_of(&[1, 2, 3, 4]);
    let set2 = set_of(&[3, 4, 5, 6]);
    let sym_diff = set1.symmetric_difference(&set2);
    assert_eq!(sym_diff, vec![1, 2, 5, 6]);
}

#[test]
fn test_symmetric_difference_operator() {
    let set1 = set_of(&[1, 2, 3, 4]);
    let set2 = set_of(&[3, 4, 5, 6]);
    let sym_diff = set1.symmetric_difference_set(&set2);
    assert_eq!(sym_diff.len(), 4);
    assert!(sym_diff.contains(&1));
    assert!(sym_diff.contains(&2));
    assert!(sym_diff.contains(&5));
    assert!(sym_diff.contains(&6));
    assert!(!sym_diff.contains(&3));
    assert!(!sym_diff.contains(&4));
}

#[test]
fn test_equality() {
    let set1 = set_of(&[1, 2, 3]);
    let set2 = set_of(&[1, 2, 3]);
    let set3 = set_of(&[1, 2, 4]);
    assert!(set1.equals(&set2));
    assert!(!set1.equals(&set3));
}

#[test]
fn test_ordering() {
    let set1 = set_of(&[1, 2, 3]);
    let set2 = set_of(&[1, 2, 4]);
    let set3 = set_of(&[1, 2, 3, 4]);
    assert_eq!(set1.cmp_set(&set2), KeyCmp::Less);
    assert_eq!(set1.cmp_set(&set3), KeyCmp::Less);
    assert_eq!(set2.cmp_set(&set1), KeyCmp::Greater);
}

#[test]
fn test_default() {
    let set: BPlusTreeSet<i32> = Default::default();
    assert!(set.is_empty());
}

#[test]
fn test_large_dataset() {
    let mut set = BPlusTreeSet::new(5);
    for i in 0..1000 {
        set.insert(i);
    }
    assert_eq!(set.len(), 1000);
    for i in 0..1000 {
        assert!(set.contains(&i));
    }
    for i in (0..1000).step_by(2) {
        set.remove(&i);
    }
    assert_eq!(set.len(), 500);
    for i in (0..1000).step_by(2) {
        assert!(!set.contains(&i));
    }
    for i in (1..1000).step_by(2) {
        assert!(set.contains(&i));
    }
}

#[test]
fn test_reverse_insertion_order() {
    let mut set = BPlusTreeSet::new(4);
    for i in (0..50).rev() {
        set.insert(i);
    }
    assert_eq!(set.len(), 50);
    let items = set.iter();
    assert_eq!(items, (0..50).collect::<Vec<_>>());
}

#[test]
fn test_complex_set_operations() {
    let set1 = BPlusTreeSet::from_vec((1..=10).collect());
    let set2 = BPlusTreeSet::from_vec((5..=15).collect());
    let set3 = BPlusTreeSet::from_vec((10..=20).collect());

    let result1 = set1.union_set(&set2).intersection_set(&set3);
    let expected1 = result1.iter();
    assert_eq!(expected1, vec![10, 11, 12, 13, 14, 15]);

    let result2 = set1.difference_set(&set2.intersection_set(&set3));
    let expected2 = result2.iter();
    assert_eq!(expected2, (1..=9).collect::<Vec<_>>());
}
