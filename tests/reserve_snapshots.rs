use margined_pricefeed::{OracleError, ReserveSnapshot, ReserveSnapshotStore};

fn snap(quote: u128, base: u128, timestamp: u64, block_height: u64) -> ReserveSnapshot {
    ReserveSnapshot { quote_asset_reserve: quote, base_asset_reserve: base, timestamp, block_height }
}

#[test]
fn new_store_is_empty() {
    let s = ReserveSnapshotStore::new();
    assert_eq!(s.read_reserve_snapshot_counter(), 0);
    assert_eq!(s.read_reserve_snapshot(0), Err(OracleError::NotFound));
    assert_eq!(s.read_reserve_snapshot(1), Err(OracleError::NotFound));
}

#[test]
fn append_advances_counter() {
    let mut s = ReserveSnapshotStore::new();
    s.store_reserve_snapshot(snap(10, 20, 100, 1)).unwrap();
    s.store_reserve_snapshot(snap(11, 21, 105, 2)).unwrap();
    assert_eq!(s.read_reserve_snapshot_counter(), 2);
    assert_eq!(s.read_reserve_snapshot(1), Ok(snap(10, 20, 100, 1)));
    assert_eq!(s.read_reserve_snapshot(2), Ok(snap(11, 21, 105, 2)));
    assert_eq!(s.read_reserve_snapshot(3), Err(OracleError::NotFound));
}

#[test]
fn amend_without_snapshot_fails() {
    let mut s = ReserveSnapshotStore::new();
    assert_eq!(s.update_current_reserve_snapshot(snap(1, 2, 3, 4)), Err(OracleError::NoSnapshot));
    assert_eq!(s.read_reserve_snapshot_counter(), 0);
}

#[test]
fn amend_twice_keeps_counter_and_last_values() {
    let mut s = ReserveSnapshotStore::new();
    s.store_reserve_snapshot(snap(10, 20, 100, 1)).unwrap();
    s.update_current_reserve_snapshot(snap(12, 18, 100, 1)).unwrap();
    s.update_current_reserve_snapshot(snap(13, 17, 101, 1)).unwrap();
    assert_eq!(s.read_reserve_snapshot_counter(), 1);
    assert_eq!(s.read_reserve_snapshot(1), Ok(snap(13, 17, 101, 1)));
}

#[test]
fn amend_touches_only_current_snapshot() {
    let mut s = ReserveSnapshotStore::new();
    s.store_reserve_snapshot(snap(10, 20, 100, 1)).unwrap();
    s.store_reserve_snapshot(snap(11, 21, 105, 2)).unwrap();
    s.update_current_reserve_snapshot(snap(9, 23, 106, 2)).unwrap();
    assert_eq!(s.read_reserve_snapshot(1), Ok(snap(10, 20, 100, 1)));
    assert_eq!(s.read_reserve_snapshot(2), Ok(snap(9, 23, 106, 2)));
}
