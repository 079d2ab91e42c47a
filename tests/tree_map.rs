use memscan::tree_map::BPlusTreeMap;
use std::collections::HashSet;

#[test]
fn insert_small() {
    let mut map = BPlusTreeMap::<i32, i32>::new(4);

    map.insert(10, 100);
    map.insert(5, 50);
    map.insert(20, 200);

    assert_eq!(map.len(), 3);
    let keys = map.keys();
    assert_eq!(keys, vec![5, 10, 20]);
    let mut iter = map.iter();
    assert_eq!(iter.len(), 3);
    assert_eq!(iter.next(), Some((5, &50)));
}

#[test]
fn test_iterator() {
    let mut map = BPlusTreeMap::<i32, i32>::new(4);

    let data = vec![(10, 100), (5, 50), (20, 200), (15, 150), (25, 250), (30, 300)];
    for &(k, v) in &data {
        map.insert(k, v);
    }

    let collected: Vec<(i32, i32)> = map.entries().into_iter().map(|(k, v)| (k, *v)).collect();
    let expected = vec![(5, 50), (10, 100), (15, 150), (20, 200), (25, 250), (30, 300)];
    assert_eq!(collected, expected);

    let iter = map.iter();
    assert_eq!(iter.len(), 6);
}

#[test]
fn test_len_and_is_empty() {
    let mut map = BPlusTreeMap::<i32, i32>::new(4);

    assert_eq!(map.len(), 0);
    assert!(map.is_empty());

    map.insert(10, 100);
    assert_eq!(map.len(), 1);
    assert!(!map.is_empty());

    map.insert(20, 200);
    map.insert(30, 300);
    assert_eq!(map.len(), 3);

    map.remove(&20);
    assert_eq!(map.len(), 2);

    map.remove(&10);
    map.remove(&30);
    assert_eq!(map.len(), 0);
    assert!(map.is_empty());
}

#[test]
fn test_iterator_multiple_loops() {
    let mut map = BPlusTreeMap::<i32, i32>::new(4);
    for i in 0..20 {
        map.insert(i, i * 100);
    }
    for round in 0..3 {
        let mut count = 0;
        let mut last_key = None;
        for (k, v) in map.entries() {
            assert_eq!(*v, k * 100);
            if let Some(prev) = last_key {
                assert!(prev < k, "Round {}: keys must be in ascending order", round);
            }
            last_key = Some(k);
            count += 1;
        }
        assert_eq!(count, 20, "Round {}: iterator should return all 20 elements", round);
    }
}

#[test]
fn test_iterator_empty_tree() {
    let map = BPlusTreeMap::<i32, i32>::new(4);
    let mut iter = map.iter();
    assert_eq!(iter.len(), 0);
    assert_eq!(iter.next(), None);
    assert_eq!(iter.next(), None);
}

#[test]
fn test_iterator_single_element() {
    let mut map = BPlusTreeMap::<i32, i32>::new(4);
    map.insert(42, 100);
    for _ in 0..3 {
        let mut iter = map.iter();
        assert_eq!(iter.len(), 1);
        assert_eq!(iter.next(), Some((42, &100)));
        assert_eq!(iter.next(), None);
    }
}

#[test]
fn test_iterator_large_dataset() {
    let mut map = BPlusTreeMap::<i32, i32>::new(8);
    for i in 0..1000 {
        map.insert(i, i * 2);
    }
    for _ in 0..3 {
        let collected = map.entries();
        assert_eq!(collected.len(), 1000);
        assert_eq!(collected[0], (0, &0));
        assert_eq!(collected[1], (1, &2));
        assert_eq!(collected[999], (999, &1998));
        for i in 1..collected.len() {
            assert!(collected[i - 1].0 < collected[i].0);
        }
    }
}

#[test]
fn test_iterator_after_removals() {
    let mut map = BPlusTreeMap::<i32, i32>::new(4);
    for i in 0..50 {
        map.insert(i, i * 10);
    }
    for i in (0..50).step_by(2) {
        map.remove(&i);
    }
    for _ in 0..3 {
        let collected: Vec<i32> = map.entries().into_iter().map(|(k, _)| k).collect();
        assert_eq!(collected.len(), 25);
        for (idx, &k) in collected.iter().enumerate() {
            assert_eq!(k, idx as i32 * 2 + 1, "Should only have odd numbers");
        }
    }
}

#[test]
fn test_iterator_after_mixed_operations() {
    let mut map = BPlusTreeMap::<i32, i32>::new(4);
    for i in 0..30 {
        map.insert(i, i);
    }
    for i in (10..20).rev() {
        map.remove(&i);
    }
    for i in 100..110 {
        map.insert(i, i);
    }
    for _ in 0..3 {
        let keys = map.keys();
        assert_eq!(keys.len(), 30);
        for i in 1..keys.len() {
            assert!(keys[i - 1] < keys[i]);
        }
        for k in keys.iter() {
            assert!(*k < 10 || *k >= 20);
        }
    }
}

#[test]
fn test_iterator_size_hint() {
    let mut map = BPlusTreeMap::<i32, i32>::new(4);
    for i in 0..50 {
        map.insert(i, i);
    }
    let mut iter = map.iter();
    assert_eq!(iter.size_hint(), (50, Some(50)));
    assert_eq!(iter.len(), 50);
    for _ in 0..10 {
        iter.next();
    }
    assert_eq!(iter.size_hint(), (40, Some(40)));
    assert_eq!(iter.len(), 40);
    while iter.next().is_some() {}
    assert_eq!(iter.len(), 0);
}

#[test]
fn test_iterator_memory_safety() {
    let mut cnt = 0;
    loop {
        let mut map = BPlusTreeMap::<i32, String>::new(4);
        for i in 0..100 {
            map.insert(i, format!("value_{}", i));
        }
        for round in 0..5 {
            let mut count = 0;
            for (k, v) in map.entries() {
                assert_eq!(*v, format!("value_{}", k));
                count += 1;
            }
            assert_eq!(count, 100, "Round {}", round);
        }
        for i in (0..100).step_by(2) {
            map.remove(&i);
        }
        for _ in 0..5 {
            let count = map.entries().len();
            assert_eq!(count, 50);
        }
        cnt += 1;
        if cnt >= 10 {
            break;
        }
    }
}

#[test]
fn test_reverse_insertion() {
    let mut map = BPlusTreeMap::<i32, i32>::new(4);
    for i in (0..100).rev() {
        map.insert(i, i * 2);
    }
    assert_eq!(map.len(), 100);
    let collected = map.keys();
    for i in 0..100 {
        assert_eq!(collected[i as usize], i);
    }
}

#[test]
fn test_iterator_stability_after_deletion() {
    let mut map = BPlusTreeMap::<i32, i32>::new(4);
    for i in 0..100 {
        map.insert(i, i * 2);
    }
    for i in (0..100).filter(|x| x % 3 == 0) {
        map.remove(&i);
    }
    for _ in 0..3 {
        let keys = map.keys();
        for k in &keys {
            assert_ne!(k % 3, 0);
        }
        for i in 1..keys.len() {
            assert!(keys[i - 1] < keys[i]);
        }
    }
}

#[test]
fn test_stress_insert_remove_cycles() {
    let mut map = BPlusTreeMap::<i32, String>::new(5);
    for round in 0..5 {
        for i in 0..100 {
            map.insert(i, format!("round_{}_val_{}", round, i));
        }
        assert_eq!(map.len(), 100);
        for i in 0..50 {
            assert_eq!(map.remove(&i), Some(format!("round_{}_val_{}", round, i)));
        }
        assert_eq!(map.len(), 50);
        for i in 50..100 {
            assert_eq!(map.remove(&i), Some(format!("round_{}_val_{}", round, i)));
        }
        assert!(map.is_empty());
    }
}

#[test]
fn test_no_duplicate_keys() {
    let mut map = BPlusTreeMap::<i32, i32>::new(4);
    for i in 0..500 {
        map.insert(i, i * 2);
    }
    let keys = map.keys();
    let unique_keys: HashSet<_> = keys.iter().copied().collect();
    assert_eq!(keys.len(), unique_keys.len(), "Found duplicate keys in tree");
    assert_eq!(keys.len(), 500);
    for i in (0..500).step_by(3) {
        map.remove(&i);
    }
    let keys2 = map.keys();
    let unique_keys2: HashSet<_> = keys2.iter().copied().collect();
    assert_eq!(keys2.len(), unique_keys2.len(), "Found duplicate keys after deletion");
}

#[test]
fn test_leaf_linked_list_integrity() {
    let mut map = BPlusTreeMap::<i32, i32>::new(4);
    for i in 0..100 {
        map.insert(i, i);
    }
    let iter_keys = map.keys();
    assert_eq!(iter_keys.len(), 100);
    for i in (0..100).step_by(3) {
        map.remove(&i);
    }
    let iter_keys2 = map.keys();
    assert_eq!(iter_keys2.len(), map.len());
    for i in 1..iter_keys2.len() {
        assert!(iter_keys2[i - 1] < iter_keys2[i], "List order broken");
    }
}

#[test]
fn test_remove_single_root_child() {
    let mut map = BPlusTreeMap::<i32, i32>::new(4);
    for round in 0..5 {
        for i in 0..20 {
            map.insert(i, round * 100 + i);
        }
        for i in 0..20 {
            assert_eq!(map.remove(&i), Some(round * 100 + i));
        }
        assert!(map.is_empty());
    }
}

#[test]
fn test_iterator_edge_cases() {
    let mut map = BPlusTreeMap::<i32, i32>::new(4);
    assert_eq!(map.entries().len(), 0);
    map.insert(1, 10);
    assert_eq!(map.entries().len(), 1);
    map.insert(2, 20);
    map.remove(&1);
    assert_eq!(map.entries().len(), 1);
    for i in 0..50 {
        map.insert(i, i * 10);
    }
    let mut iter = map.iter();
    let mut first_10 = Vec::new();
    for _ in 0..10 {
        if let Some(e) = iter.next() {
            first_10.push(e);
        }
    }
    assert_eq!(first_10.len(), 10);
    let mut remaining = Vec::new();
    while let Some(e) = iter.next() {
        remaining.push(e);
    }
    assert_eq!(remaining.len(), 40);
}

#[test]
fn test_reverse_deletion() {
    let mut map = BPlusTreeMap::<i32, i32>::new(4);
    for i in 0..100 {
        map.insert(i, i);
    }
    for i in (0..100).rev() {
        assert_eq!(map.remove(&i), Some(i));
        assert_eq!(map.len(), i as usize);
    }
    assert!(map.is_empty());
}

#[test]
fn test_range_query_simulation() {
    let mut map = BPlusTreeMap::<i32, i32>::new(5);
    for i in 0..100 {
        map.insert(i, i * 10);
    }
    let range_items: Vec<(i32, i32)> = map
        .entries()
        .into_iter()
        .filter(|(k, _)| *k >= 20 && *k < 30)
        .map(|(k, v)| (k, *v))
        .collect();
    assert_eq!(range_items.len(), 10);
    for (i, &(k, v)) in range_items.iter().enumerate() {
        assert_eq!(k, 20 + i as i32);
        assert_eq!(v, (20 + i as i32) * 10);
    }
}

#[test]
fn map_test_remove() {
    let mut map = BPlusTreeMap::<i32, i32>::new(4);
    for i in 0..10 {
        map.insert(i, i * 10);
    }
    assert_eq!(map.len(), 10);
    assert_eq!(map.remove(&5), Some(50));
    assert_eq!(map.len(), 9);
    assert_eq!(map.get(&5), None);
    assert_eq!(map.remove(&5), None);
    for i in 0..10 {
        if i != 5 {
            map.remove(&i);
        }
    }
    assert_eq!(map.len(), 0);
    assert!(map.is_empty());
}

#[test]
fn test_key_replacement() {
    let mut map = BPlusTreeMap::<i32, String>::new(4);
    map.insert(10, "first".to_string());
    map.insert(20, "value20".to_string());
    map.insert(30, "value30".to_string());
    assert_eq!(map.len(), 3);
    let old = map.insert(10, "second".to_string());
    assert_eq!(old, Some("first".to_string()));
    assert_eq!(map.len(), 3);
    assert_eq!(map.get(&10), Some(&"second".to_string()));
    let old = map.insert(10, "third".to_string());
    assert_eq!(old, Some("second".to_string()));
    assert_eq!(map.len(), 3);
    assert_eq!(map.remove(&10), Some("third".to_string()));
    assert_eq!(map.len(), 2);
    assert_eq!(map.remove(&10), None);
    assert_eq!(map.len(), 2);
}

#[test]
fn min_keys_follow_the_order() {
    let map = BPlusTreeMap::<i32, i32>::new(5);
    assert_eq!(map.min_keys_for_leaf(), 3);
    assert_eq!(map.min_keys_for_internal(), 2);
    assert_eq!(map.order(), 5);
}
