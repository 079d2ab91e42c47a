use memscan::store::{ExactSearchResultItem, ExactSearchResultManager, SearchFilter, SearchResultManager, SearchResultMode, ITEM_BYTES};
use memscan::types::ValueType;

fn item(i: u64) -> ExactSearchResultItem {
    ExactSearchResultItem::new(0x1000 + i * 4, ValueType::Dword)
}

#[test]
fn add_then_read_last_round_trips() {
    let mut store = ExactSearchResultManager::new(10 * ITEM_BYTES);
    for i in 0..25 {
        store.add_result(item(i));
        let last = store.get_results(store.total_count() - 1, 1);
        assert_eq!(last, vec![item(i)]);
    }
}

#[test]
fn spill_boundary_and_batch_removal() {
    let mut store = ExactSearchResultManager::new(1000 * ITEM_BYTES);
    for i in 0..3000 {
        store.add_result(item(i));
    }
    assert_eq!(store.memory_count(), 1000);
    assert_eq!(store.disk_count(), 2000);
    assert_eq!(store.get_results(999, 2), vec![item(999), item(1000)]);
    store.remove_results_batch(vec![500, 1500, 2500]);
    assert_eq!(store.total_count(), 2997);
    let all = store.get_all_results();
    let expected: Vec<_> = (0..3000).filter(|i| *i != 500 && *i != 1500 && *i != 2500).map(item).collect();
    assert_eq!(all, expected);
}

#[test]
fn batch_delete_equals_serial_delete() {
    let mut a = ExactSearchResultManager::new(7 * ITEM_BYTES);
    let mut b = ExactSearchResultManager::new(7 * ITEM_BYTES);
    for i in 0..20 {
        a.add_result(item(i));
        b.add_result(item(i));
    }
    let idx = vec![3, 19, 7, 12, 0];
    a.remove_results_batch(idx.clone());
    let mut desc = idx.clone();
    desc.sort_unstable_by(|x, y| y.cmp(x));
    for i in desc {
        b.remove_result(i).unwrap();
    }
    assert_eq!(a.get_all_results(), b.get_all_results());
}

#[test]
fn keep_only_is_batch_delete_of_the_rest() {
    for keep in [vec![1, 4, 5], vec![0, 2, 3, 4, 6, 7, 8, 9, 10, 11]] {
        let mut a = ExactSearchResultManager::new(5 * ITEM_BYTES);
        let mut b = ExactSearchResultManager::new(5 * ITEM_BYTES);
        for i in 0..12 {
            a.add_result(item(i));
            b.add_result(item(i));
        }
        a.keep_only_results(keep.clone());
        let rest: Vec<usize> = (0..12).filter(|i| !keep.contains(i)).collect();
        b.remove_results_batch(rest);
        assert_eq!(a.get_all_results(), b.get_all_results());
        assert_eq!(a.total_count(), keep.len());
    }
}

#[test]
fn remove_out_of_range_is_an_error() {
    let mut store = ExactSearchResultManager::new(0);
    store.add_result(item(1));
    assert_eq!(store.memory_count(), 0);
    assert!(store.remove_result(1).is_err());
    assert!(store.remove_result(0).is_ok());
    assert_eq!(store.total_count(), 0);
    assert!(store.get_results(0, 5).is_empty());
}

#[test]
fn clear_empties_the_store() {
    let mut store = ExactSearchResultManager::new(2 * ITEM_BYTES);
    for i in 0..5 {
        store.add_result(item(i));
    }
    store.clear();
    assert_eq!(store.total_count(), 0);
    store.add_result(item(9));
    assert_eq!(store.get_results(0, 10), vec![item(9)]);
}

#[test]
fn fuzzy_mode_is_refused() {

    let mut m = SearchResultManager::new(4 * ITEM_BYTES);
    assert_eq!(m.get_mode(), SearchResultMode::Exact);
    m.add_result(item(1)).unwrap();
    m.add_result(item(2)).unwrap();
    assert_eq!(m.total_count(), Ok(2));
    m.keep_only_results(vec![1]).unwrap();
    assert_eq!(m.get_all_exact_results(), Ok(vec![item(2)]));
    assert!(m.set_mode(SearchResultMode::Fuzzy).is_ok());
    assert_eq!(m.total_count(), Err("Fuzzy results are not supported".to_string()));
    assert!(m.add_result(item(3)).is_err());
    assert!(m.set_mode(SearchResultMode::Exact).is_err());
    assert_eq!(m.get_mode(), SearchResultMode::Fuzzy);
}

#[test]
fn filter_by_address_and_type() {
    let items = vec![
        ExactSearchResultItem::new(0x1000, ValueType::Dword),
        ExactSearchResultItem::new(0x2000, ValueType::Byte),
        ExactSearchResultItem::new(0x3000, ValueType::Dword),
    ];
    let mut f = SearchFilter::new();
    assert!(!f.is_active());
    assert_eq!(f.apply(&items).len(), 3);
    f.set(true, 0x1000, 0x2000, false, &vec![]);
    assert_eq!(f.apply(&items), vec![(0, items[0]), (1, items[1])]);
    f.set(false, 0, 0, true, &vec![2, 99]);
    assert_eq!(f.apply(&items), vec![(0, items[0]), (2, items[2])]);
    f.clear();
    assert_eq!(f.apply(&items).len(), 3);
}
