use memscan::freeze::{FreezeManager, DEFAULT_INTERVAL_US};

#[test]
fn pins_are_added_replaced_and_removed() {
    let mut f = FreezeManager::new();
    assert_eq!(f.interval(), DEFAULT_INTERVAL_US);
    assert_eq!(f.get_frozen_count(), 0);
    f.add_frozen(0x1000, vec![1, 2, 3, 4], 2);
    f.add_frozen(0x2000, vec![9], 0);
    f.add_frozen(0x1000, vec![5, 6, 7, 8], 2);
    assert_eq!(f.get_frozen_count(), 2);
    assert!(f.is_frozen(0x1000));
    let mut plan = f.write_plan();
    plan.sort();
    assert_eq!(plan, vec![(0x1000, vec![5, 6, 7, 8]), (0x2000, vec![9])]);
    let mut addrs = f.get_frozen_addresses();
    addrs.sort();
    assert_eq!(addrs, vec![0x1000, 0x2000]);
    assert!(f.remove_frozen(0x2000));
    assert!(!f.remove_frozen(0x2000));
    assert!(!f.is_frozen(0x2000));
    f.clear_all();
    assert_eq!(f.get_frozen_count(), 0);
}

#[test]
fn loop_starts_once_and_stops() {
    let mut f = FreezeManager::new();
    assert!(f.start());
    assert!(!f.start());
    assert!(f.is_running());
    f.set_interval(1000);
    assert_eq!(f.interval(), 1000);
    assert!(f.stop());
    assert!(!f.stop());
    assert!(!f.is_running());
}
