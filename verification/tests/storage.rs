use iroh_sdht::pressure::{PressureMonitor, PRESSURE_FULL};
use iroh_sdht::store::{LocalStore, LOCAL_STORE_MAX_ENTRIES};
use iroh_sdht::Key;

const SECOND: u64 = 1_000_000_000;

fn key(n: u8) -> Key {
    [n; 32]
}

#[test]
fn pressure_is_the_mean_of_three_ratios() {
    let mut monitor = PressureMonitor::new();
    assert_eq!(monitor.current_pressure(), Some(0));
    monitor.set_limits(1000, 500, 10);
    monitor.record_store(100);
    monitor.record_request(SECOND);
    monitor.update_pressure(1);
    // 0.1 on the disk, 0.2 of the memory, 0.1 of the requests
    assert_eq!(monitor.current_pressure(), Some(133_333_333));
    assert!(!monitor.is_over_threshold());
    monitor.record_evict(50);
    monitor.update_pressure(1);
    assert_eq!(monitor.current_pressure(), Some(83_333_333));
}

#[test]
fn pressure_never_exceeds_full() {
    let mut monitor = PressureMonitor::new();
    monitor.set_limits(10, 10, 10);
    monitor.record_store(usize::MAX);
    monitor.record_store(5);
    monitor.update_pressure(1);
    assert_eq!(monitor.current_pressure(), Some(PRESSURE_FULL));
    monitor.record_evict(usize::MAX);
    monitor.record_evict(1);
    monitor.update_pressure(1);
    assert_eq!(monitor.current_pressure(), Some(0));
}

#[test]
fn pressure_without_limits() {
    let mut monitor = PressureMonitor::new();
    monitor.set_limits(0, 0, 0);
    monitor.update_pressure(0);
    assert_eq!(monitor.current_pressure(), Some(PRESSURE_FULL));
    monitor.update_pressure(3);
    assert_eq!(monitor.current_pressure(), None);
    assert!(!monitor.is_over_threshold());
    monitor.record_store(1);
    monitor.record_request(0);
    monitor.update_pressure(3);
    assert_eq!(monitor.current_pressure(), Some(PRESSURE_FULL));
}

#[test]
fn the_threshold_itself_is_acceptable() {
    let mut monitor = PressureMonitor::new();
    monitor.set_limits(10, 10, 10);
    monitor.record_store(10);
    for _ in 0..4 {
        monitor.record_request(0);
    }
    monitor.update_pressure(1);
    assert_eq!(monitor.current_pressure(), Some(800_000_000));
    assert!(!monitor.is_over_threshold());
    monitor.record_request(0);
    monitor.update_pressure(1);
    assert!(monitor.is_over_threshold());
    monitor.record_spill();
    assert_eq!(monitor.current_pressure(), Some(PRESSURE_FULL));
}

#[test]
fn requests_leave_the_window_after_a_minute() {
    let mut monitor = PressureMonitor::new();
    monitor.set_limits(1, 1, 3);
    monitor.record_request(0);
    monitor.record_request(30 * SECOND);
    monitor.record_request(60 * SECOND);
    monitor.update_pressure(0);
    assert_eq!(monitor.current_pressure(), Some(333_333_333));
    monitor.record_request(60 * SECOND + 1);
    monitor.update_pressure(0);
    assert_eq!(monitor.current_pressure(), Some(333_333_333));
    monitor.trim_requests(200 * SECOND);
    monitor.update_pressure(0);
    assert_eq!(monitor.current_pressure(), Some(0));
}

#[test]
fn a_stored_value_is_read_back() {
    let mut store = LocalStore::new();
    assert_eq!(store.len(), 0);
    assert!(store.store(key(1), b"one").is_empty());
    assert!(store.store(key(2), b"two").is_empty());
    assert_eq!(store.len(), 2);
    assert_eq!(store.get(&key(1)), Some(b"one".to_vec()));
    assert_eq!(store.get(&key(2)), Some(b"two".to_vec()));
    assert_eq!(store.get(&key(3)), None);
}

#[test]
fn storing_again_replaces_the_value() {
    let mut store = LocalStore::new();
    store.override_limits(1000, 1000, 1000);
    store.store(key(1), &[7; 300]);
    store.store(key(1), &[8; 150]);
    assert_eq!(store.len(), 1);
    assert_eq!(store.get(&key(1)), Some(vec![8; 150]));
    // 0.15 on the disk and of the memory, no requests
    assert_eq!(store.current_pressure(), Some(100_000_000));
}

#[test]
fn pressure_evicts_the_least_recently_used_entries() {
    let mut store = LocalStore::new();
    store.override_limits(100, 100, 1);
    store.store(key(1), &[1; 30]);
    store.store(key(2), &[2; 30]);
    store.store(key(3), &[3; 30]);
    assert_eq!(store.get(&key(1)), Some(vec![1; 30]));
    store.record_request(0);
    // (0.9 + 0.9 + 1) / 3
    assert_eq!(store.current_pressure(), Some(933_333_333));
    let spilled = store.store(key(4), &[4; 5]);
    assert_eq!(spilled, vec![(key(2), vec![2; 30])]);
    assert_eq!(store.len(), 3);
    assert_eq!(store.current_pressure(), Some(PRESSURE_FULL));
    assert_eq!(store.get(&key(2)), None);
    assert_eq!(store.get(&key(1)), Some(vec![1; 30]));
    assert_eq!(store.get(&key(3)), Some(vec![3; 30]));
    assert_eq!(store.get(&key(4)), Some(vec![4; 5]));
}

#[test]
fn a_value_over_all_limits_is_spilled_itself() {
    let mut store = LocalStore::new();
    store.override_limits(10, 10, 10);
    store.store(key(1), &[1; 2]);
    let spilled = store.store(key(2), &[2; 100]);
    assert_eq!(
        spilled,
        vec![(key(1), vec![1; 2]), (key(2), vec![2; 100])]
    );
    assert_eq!(store.len(), 0);
    assert_eq!(store.current_pressure(), Some(PRESSURE_FULL));
}

#[test]
fn a_dropped_entry_gives_its_bytes_back() {
    let mut store = LocalStore::new();
    store.override_limits(usize::MAX, 300_000, usize::MAX);
    let total = LOCAL_STORE_MAX_ENTRIES as u32;
    let numbered = |n: u32| {
        let mut key = [0u8; 32];
        key[..4].copy_from_slice(&n.to_be_bytes());
        key
    };
    for n in 0..total {
        assert!(store.store(numbered(n), b"x").is_empty());
    }
    // 100,000 bytes are a third of the memory, and so a ninth of the pressure
    assert_eq!(store.current_pressure(), Some(111_111_111));
    assert!(store.store(numbered(total), b"y").is_empty());
    assert_eq!(store.len(), LOCAL_STORE_MAX_ENTRIES);
    assert_eq!(store.current_pressure(), Some(111_111_111));
    assert_eq!(store.get(&numbered(0)), None);
}

#[test]
fn a_store_without_room_drops_its_least_recently_used_entry() {
    let mut store = LocalStore::new();
    let total = LOCAL_STORE_MAX_ENTRIES as u32;
    let numbered = |n: u32| {
        let mut key = [0u8; 32];
        key[..4].copy_from_slice(&n.to_be_bytes());
        key
    };
    for n in 0..total {
        assert!(store.store(numbered(n), b"").is_empty());
    }
    assert_eq!(store.len(), LOCAL_STORE_MAX_ENTRIES);
    assert_eq!(store.get(&numbered(0)), Some(Vec::new()));
    assert!(store.store(numbered(total), b"").is_empty());
    assert_eq!(store.len(), LOCAL_STORE_MAX_ENTRIES);
    assert_eq!(store.get(&numbered(0)), Some(Vec::new()));
    assert_eq!(store.get(&numbered(1)), None);
    assert_eq!(store.get(&numbered(total)), Some(Vec::new()));
}
