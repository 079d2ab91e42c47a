use memscan::tree_map::BPlusTreeMap;

#[derive(Debug, PartialEq, Clone)]
struct ComplexValue {
    id: i32,
    name: String,
    data: Vec<u8>,
}

#[test]
fn insert_duplicate_keys() {
    let mut map = BPlusTreeMap::<i32, i32>::new(4);
    assert_eq!(map.insert(10, 1), None);
    assert_eq!(map.len(), 1);
    assert_eq!(map.insert(10, 2), Some(1));
    assert_eq!(map.len(), 1);
    assert_eq!(map.insert(10, 3), Some(2));
    assert_eq!(map.len(), 1);
    assert_eq!(map.get(&10), Some(&3));
}

#[test]
fn test_get_and_get_mut() {
    let mut map = BPlusTreeMap::<i32, String>::new(4);
    map.insert(10, "ten".to_string());
    map.insert(5, "five".to_string());
    map.insert(20, "twenty".to_string());
    map.insert(15, "fifteen".to_string());
    assert_eq!(map.get(&10), Some(&"ten".to_string()));
    assert_eq!(map.get(&5), Some(&"five".to_string()));
    assert_eq!(map.get(&20), Some(&"twenty".to_string()));
    assert_eq!(map.get(&15), Some(&"fifteen".to_string()));
    assert_eq!(map.get(&100), None);
    if let Some(val) = map.get_mut(&10) {
        *val = "TEN".to_string();
    }
    assert_eq!(map.get(&10), Some(&"TEN".to_string()));
}

#[test]
fn test_get_after_splits() {
    let mut map = BPlusTreeMap::<i32, i32>::new(4);
    for i in 0..100 {
        map.insert(i, i * 10);
    }
    for i in 0..100 {
        assert_eq!(map.get(&i), Some(&(i * 10)));
    }
    assert_eq!(map.get(&100), None);
    assert_eq!(map.get(&-1), None);
}

#[test]
fn test_remove_memory_safety() {
    let mut map = BPlusTreeMap::<i32, Vec<i32>>::new(4);
    for i in 0..50 {
        map.insert(i, vec![i, i * 2, i * 3]);
    }
    for i in (0..50).step_by(2) {
        let removed = map.remove(&i);
        assert_eq!(removed, Some(vec![i, i * 2, i * 3]));
    }
    for i in (1..50).step_by(2) {
        assert_eq!(map.get(&i), Some(&vec![i, i * 2, i * 3]));
    }
    for i in (1..50).step_by(2) {
        map.remove(&i);
    }
    assert!(map.is_empty());
}

#[test]
fn test_alternating_insert_remove() {
    let mut map = BPlusTreeMap::<i32, i32>::new(4);
    for i in 0..50 {
        map.insert(i, i);
        if i > 0 && i % 2 == 0 {
            map.remove(&(i - 1));
        }
    }
    for i in 0..50 {
        if i % 2 == 0 || i == 49 {
            assert_eq!(map.get(&i), Some(&i), "Key {} should exist", i);
        } else {
            assert_eq!(map.get(&i), None, "Key {} should not exist", i);
        }
    }
}

#[test]
fn test_remove_to_single_element() {
    let mut map = BPlusTreeMap::<i32, i32>::new(4);
    for i in 0..10 {
        map.insert(i, i * 10);
    }
    for i in 0..9 {
        map.remove(&i);
    }
    assert_eq!(map.len(), 1);
    assert_eq!(map.get(&9), Some(&90));
    assert!(!map.is_empty());
    let collected = map.entries();
    assert_eq!(collected.len(), 1);
    assert_eq!(collected[0], (9, &90));
}

#[test]
fn test_clear_and_reinsert() {
    let mut map = BPlusTreeMap::<i32, String>::new(4);
    let c: i32 = 13;
    for i in 0..c {
        map.insert(i, format!("first_{}", i));
    }
    for i in 0..c {
        map.remove(&i);
        if i == 3 {
            let v4 = map.get(&4);
            assert_eq!(v4, Some(&"first_4".to_string()));
        }
    }
    assert!(map.is_empty());
    for i in 0..c {
        map.insert(i, format!("second_{}", i));
    }
    for i in 0..c {
        assert_eq!(map.get(&i), Some(&format!("second_{}", i)));
    }
    assert_eq!(map.len(), c as usize);
}

#[test]
fn test_large_objects() {
    let mut map = BPlusTreeMap::<i32, Vec<u8>>::new(4);
    for i in 0..50 {
        map.insert(i, vec![i as u8; 1024]);
    }
    for i in 0..50 {
        let v = map.get(&i).unwrap();
        assert_eq!(v.len(), 1024);
        assert_eq!(v[0], i as u8);
    }
    for i in (0..50).step_by(2) {
        map.remove(&i);
    }
    for i in (1..50).step_by(2) {
        let v = map.get(&i).unwrap();
        assert_eq!(v.len(), 1024);
    }
}

#[test]
fn test_get_nonexistent_keys() {
    let mut map = BPlusTreeMap::<i32, i32>::new(4);
    assert_eq!(map.get(&0), None);
    for i in [10, 20, 30, 40, 50] {
        map.insert(i, i);
    }
    assert_eq!(map.get(&0), None);
    assert_eq!(map.get(&15), None);
    assert_eq!(map.get(&25), None);
    assert_eq!(map.get(&100), None);
    assert_eq!(map.get(&-1), None);
}

#[test]
fn test_remove_same_key_multiple_times() {
    let mut map = BPlusTreeMap::<i32, i32>::new(4);
    map.insert(10, 100);
    map.insert(20, 200);
    assert_eq!(map.remove(&10), Some(100));
    assert_eq!(map.len(), 1);
    assert_eq!(map.remove(&10), None);
    assert_eq!(map.len(), 1);
    assert_eq!(map.remove(&10), None);
    assert_eq!(map.len(), 1);
    assert_eq!(map.get(&20), Some(&200));
}

#[test]
fn test_get_mut_modifications() {
    let mut map = BPlusTreeMap::<i32, Vec<i32>>::new(4);
    for i in 0..20 {
        map.insert(i, vec![i]);
    }
    for i in 0..20 {
        if let Some(v) = map.get_mut(&i) {
            v.push(i * 10);
            v.push(i * 100);
        }
    }
    for i in 0..20 {
        assert_eq!(map.get(&i), Some(&vec![i, i * 10, i * 100]));
    }
    for (k, v) in map.entries() {
        assert_eq!(v, &vec![k, k * 10, k * 100]);
    }
}

#[test]
fn test_separator_keys_correctness() {
    let mut map = BPlusTreeMap::<i32, i32>::new(4);
    for i in 0..100 {
        map.insert(i, i);
    }
    for i in 0..100 {
        assert_eq!(map.get(&i), Some(&i), "Failed to find key {}", i);
    }
    for i in 100..110 {
        assert_eq!(map.get(&i), None, "Found non-existent key {}", i);
    }
}

#[test]
fn test_massive_value_replacement() {
    let mut map = BPlusTreeMap::<i32, String>::new(5);
    for i in 0..50 {
        map.insert(i, format!("v0_{}", i));
    }
    for round in 1..10 {
        for i in 0..50 {
            let old = map.insert(i, format!("v{}_{}", round, i));
            assert_eq!(old, Some(format!("v{}_{}", round - 1, i)));
        }
        assert_eq!(map.len(), 50);
    }
    for i in 0..50 {
        assert_eq!(map.get(&i), Some(&format!("v9_{}", i)));
    }
}

#[test]
fn test_consecutive_deletions_with_merges() {
    let mut map = BPlusTreeMap::<i32, i32>::new(4);
    for i in 0..100 {
        map.insert(i, i);
    }
    for i in 0..90 {
        let removed = map.remove(&i);
        assert_eq!(removed, Some(i), "Failed to remove key {}", i);
        for j in (i + 1)..100 {
            assert_eq!(map.get(&j), Some(&j), "Key {} lost after removing {}", j, i);
        }
    }
    assert_eq!(map.len(), 10);
}

#[test]
fn test_insert_remove_same_key_alternating() {
    let mut map = BPlusTreeMap::<i32, String>::new(4);
    for i in 0..20 {
        map.insert(i, format!("val_{}", i));
    }
    for round in 0..20 {
        map.insert(10, format!("round_{}", round));
        assert_eq!(map.get(&10), Some(&format!("round_{}", round)));
        assert_eq!(map.remove(&10), Some(format!("round_{}", round)));
        assert_eq!(map.get(&10), None);
    }
    for i in 0..20 {
        if i != 10 {
            assert_eq!(map.get(&i), Some(&format!("val_{}", i)));
        }
    }
}

#[test]
fn test_borrowing_after_splits() {
    let mut map = BPlusTreeMap::<i32, i32>::new(4);
    for i in 0..50 {
        map.insert(i, i);
    }
    for i in (10..20).rev() {
        map.remove(&i);
    }
    for i in 0..50 {
        if i < 10 || i >= 20 {
            assert_eq!(map.get(&i), Some(&i), "Key {} should exist", i);
        } else {
            assert_eq!(map.get(&i), None, "Key {} should not exist", i);
        }
    }
    let keys = map.keys();
    for i in 1..keys.len() {
        assert!(keys[i - 1] < keys[i]);
    }
}

#[test]
fn test_keep_first_and_last_only() {
    let mut map = BPlusTreeMap::<i32, i32>::new(4);
    for i in 0..100 {
        map.insert(i, i * 10);
    }
    for i in 1..99 {
        map.remove(&i);
    }
    assert_eq!(map.len(), 2);
    assert_eq!(map.get(&0), Some(&0));
    assert_eq!(map.get(&99), Some(&990));
    let collected: Vec<(i32, i32)> = map.entries().into_iter().map(|(k, v)| (k, *v)).collect();
    assert_eq!(collected, vec![(0, 0), (99, 990)]);
}

#[test]
fn test_value_integrity() {
    let mut map = BPlusTreeMap::<i32, Vec<i32>>::new(5);
    for i in 0..100 {
        map.insert(i, (0..i).collect());
    }
    for i in (0..100).step_by(3) {
        map.remove(&i);
    }
    for i in 0..100 {
        if i % 3 != 0 {
            let expected: Vec<i32> = (0..i).collect();
            assert_eq!(map.get(&i), Some(&expected), "Value corrupted for key {}", i);
        }
    }
}

#[test]
fn test_empty_tree_operations() {
    let mut map = BPlusTreeMap::<i32, i32>::new(4);
    assert_eq!(map.remove(&0), None);
    assert_eq!(map.remove(&100), None);
    assert_eq!(map.get(&0), None);
    assert_eq!(map.get_mut(&0), None);
    assert_eq!(map.entries().len(), 0);
    assert!(map.is_empty());
    assert_eq!(map.len(), 0);
    map.insert(42, 100);
    assert_eq!(map.len(), 1);
    assert_eq!(map.remove(&42), Some(100));
    assert!(map.is_empty());
}

#[test]
fn test_negative_keys() {
    let mut map = BPlusTreeMap::<i32, String>::new(4);
    for i in -50..50 {
        map.insert(i, format!("val_{}", i));
    }
    for i in -50..50 {
        assert_eq!(map.get(&i), Some(&format!("val_{}", i)));
    }
    let keys = map.keys();
    for i in 1..keys.len() {
        assert!(keys[i - 1] < keys[i]);
    }
    for i in -50..0 {
        assert_eq!(map.remove(&i), Some(format!("val_{}", i)));
    }
    assert_eq!(map.len(), 50);
}

#[test]
fn test_borrow_from_right_sibling() {
    let mut map = BPlusTreeMap::<i32, i32>::new(4);
    for i in 0..20 {
        map.insert(i, i);
    }
    for i in 0..5 {
        map.remove(&i);
    }
    for i in 5..20 {
        assert_eq!(map.get(&i), Some(&i));
    }
    assert_eq!(map.len(), 15);
    let keys = map.keys();
    assert_eq!(keys.len(), 15);
    for i in 1..keys.len() {
        assert!(keys[i - 1] < keys[i]);
    }
}

#[test]
fn test_merge_with_right_sibling() {
    let mut map = BPlusTreeMap::<i32, i32>::new(3);
    for i in 0..20 {
        map.insert(i, i * 10);
    }
    for i in 0..15 {
        map.remove(&i);
    }
    for i in 15..20 {
        assert_eq!(map.get(&i), Some(&(i * 10)));
    }
    assert_eq!(map.len(), 5);
}

#[test]
fn test_tree_height_reduction() {
    let mut map = BPlusTreeMap::<i32, i32>::new(4);
    for i in 0..200 {
        map.insert(i, i);
    }
    for i in 0..190 {
        map.remove(&i);
    }
    assert_eq!(map.len(), 10);
    for i in 190..200 {
        assert_eq!(map.get(&i), Some(&i));
    }
    for i in 190..199 {
        map.remove(&i);
    }
    assert_eq!(map.len(), 1);
    assert_eq!(map.get(&199), Some(&199));
}

#[test]
fn test_all_same_keys() {
    let mut map = BPlusTreeMap::<i32, Vec<i32>>::new(4);
    for i in 0..20 {
        let old = map.insert(42, vec![i]);
        if i == 0 {
            assert_eq!(old, None);
        } else {
            assert_eq!(old, Some(vec![i - 1]));
        }
    }
    assert_eq!(map.len(), 1);
    assert_eq!(map.get(&42), Some(&vec![19]));
}

#[test]
fn test_delete_from_both_ends() {
    let mut map = BPlusTreeMap::<i32, i32>::new(5);
    for i in 0..100 {
        map.insert(i, i * 2);
    }
    for i in 0..25 {
        assert_eq!(map.remove(&i), Some(i * 2));
        assert_eq!(map.remove(&(99 - i)), Some((99 - i) * 2));
    }
    assert_eq!(map.len(), 50);
    for i in 25..75 {
        assert_eq!(map.get(&i), Some(&(i * 2)));
    }
}

#[test]
fn test_get_mut_preserves_structure() {
    let mut map = BPlusTreeMap::<i32, Vec<i32>>::new(4);
    for i in 0..50 {
        map.insert(i, vec![i]);
    }
    for i in 0..50 {
        if let Some(v) = map.get_mut(&i) {
            v.push(i * 10);
        }
    }
    for i in 0..50 {
        assert_eq!(map.get(&i), Some(&vec![i, i * 10]));
    }
    assert_eq!(map.len(), 50);
    map.insert(100, vec![100]);
    assert_eq!(map.len(), 51);
    map.remove(&25);
    assert_eq!(map.len(), 50);
}

#[test]
fn test_internal_node_merge() {
    let mut map = BPlusTreeMap::<i32, i32>::new(4);
    for i in 0..100 {
        map.insert(i, i);
    }
    for i in 0..85 {
        map.remove(&i);
    }
    assert_eq!(map.len(), 15);
    for i in 85..100 {
        assert_eq!(map.get(&i), Some(&i));
    }
    let keys = map.keys();
    assert_eq!(keys.len(), 15);
    for i in 1..keys.len() {
        assert!(keys[i - 1] < keys[i]);
    }
}

#[test]
fn test_complex_value_types() {
    let mut map = BPlusTreeMap::<i32, ComplexValue>::new(4);
    for i in 0..30 {
        map.insert(i, ComplexValue { id: i, name: format!("item_{}", i), data: vec![i as u8; 10] });
    }
    for i in 0..30 {
        let val = map.get(&i).unwrap();
        assert_eq!(val.id, i);
        assert_eq!(val.name, format!("item_{}", i));
        assert_eq!(val.data.len(), 10);
    }
    for i in (0..30).step_by(3) {
        let removed = map.remove(&i).unwrap();
        assert_eq!(removed.id, i);
    }
    assert_eq!(map.len(), 20);
}

#[test]
fn mixed_operations_match_a_reference_map() {
    let mut map = BPlusTreeMap::<i32, i32>::new(5);
    let mut reference = std::collections::BTreeMap::new();
    let mut x: u64 = 12345;
    for step in 0..3000 {
        x = x.wrapping_mul(6364136223846793005).wrapping_add(1442695040888963407);
        let key = ((x >> 33) % 200) as i32;
        if (x >> 20) % 3 == 0 {
            assert_eq!(map.remove(&key), reference.remove(&key));
        } else {
            assert_eq!(map.insert(key, step), reference.insert(key, step));
        }
        if step % 250 == 0 {
            let first: Vec<(i32, i32)> = map.entries().into_iter().map(|(k, v)| (k, *v)).collect();
            let second: Vec<(i32, i32)> = map.entries().into_iter().map(|(k, v)| (k, *v)).collect();
            let expected: Vec<(i32, i32)> = reference.iter().map(|(k, v)| (*k, *v)).collect();
            assert_eq!(first, expected);
            assert_eq!(first, second);
            assert_eq!(map.len(), first.len());
            assert_eq!(map.iter().len(), map.len());
        }
    }
}
