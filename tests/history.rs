use wallet_alloc::history::{
    AllocationLog, AllocationRecord, HistoryLevel, HistoryStore, HistoryTable, Snapshot,
};

fn snap(ts: &str, key: &str, value: f64) -> Snapshot<f64> {
    Snapshot { timestamp: ts.to_string(), key: key.to_string(), data: value }
}

fn rows(pairs: &[(&str, f64)]) -> Vec<(String, f64)> {
    pairs.iter().map(|(k, v)| (k.to_string(), *v)).collect()
}

#[test]
fn fetch_filters_inclusive_bounds_and_orders_by_time_then_key() {
    let mut table = HistoryTable::new();
    table.insert_or_ignore(snap("2024-01-03T00:00:00+00:00", "BTC", 3.0));
    table.insert_or_ignore(snap("2024-01-01T00:00:00+00:00", "ETH", 1.0));
    table.insert_or_ignore(snap("2024-01-02T00:00:00+00:00", "SOL", 2.0));
    table.insert_or_ignore(snap("2024-01-02T00:00:00+00:00", "ADA", 2.5));
    table.insert_or_ignore(snap("2024-01-04T00:00:00+00:00", "BTC", 4.0));

    let out = table.fetch(Some("2024-01-02T00:00:00+00:00"), Some("2024-01-03T00:00:00+00:00"));
    let got: Vec<(String, String)> = out
        .iter()
        .map(|&i| (table.get(i).timestamp.clone(), table.get(i).key.clone()))
        .collect();
    assert_eq!(
        got,
        vec![
            ("2024-01-02T00:00:00+00:00".to_string(), "ADA".to_string()),
            ("2024-01-02T00:00:00+00:00".to_string(), "SOL".to_string()),
            ("2024-01-03T00:00:00+00:00".to_string(), "BTC".to_string()),
        ]
    );
}

#[test]
fn fetch_without_bounds_returns_everything_sorted() {
    let mut table = HistoryTable::new();
    table.insert_or_ignore(snap("b", "y", 0.0));
    table.insert_or_ignore(snap("a", "z", 0.0));
    table.insert_or_ignore(snap("b", "x", 0.0));
    let out = table.fetch(None, None);
    assert_eq!(out, vec![1, 2, 0]);
    assert_eq!(table.fetch(Some("b"), None), vec![2, 0]);
    assert_eq!(table.fetch(None, Some("a")), vec![1]);
    assert!(table.fetch(Some("c"), None).is_empty());
}

#[test]
fn duplicate_place_is_ignored() {
    let mut table = HistoryTable::new();
    assert!(table.insert_or_ignore(snap("t1", "BTC", 1.0)));
    assert!(!table.insert_or_ignore(snap("t1", "BTC", 2.0)));
    assert!(table.insert_or_ignore(snap("t2", "BTC", 3.0)));
    assert_eq!(table.len(), 2);
    assert_eq!(table.get(0).data, 1.0);
}

#[test]
fn total_at_same_timestamp_is_replaced() {
    let mut table = HistoryTable::new();
    table.insert_or_replace(snap("t1", "", 100.0));
    table.insert_or_replace(snap("t1", "", 250.0));
    assert_eq!(table.len(), 1);
    assert_eq!(table.get(0).data, 250.0);
}

#[test]
fn persisting_twice_keeps_one_row_per_place_and_latest_total() {
    let mut store: HistoryStore<f64, f64, f64, f64> = HistoryStore::new();
    let ts = "2024-05-01T12:00:00+00:00".to_string();
    store.persist_snapshots(
        &ts,
        rows(&[("BTC", 1.0), ("ETH", 2.0)]),
        rows(&[("Core", 3.0)]),
        rows(&[("Base", 4.0)]),
        10.0,
    );
    store.persist_snapshots(
        &ts,
        rows(&[("BTC", 5.0), ("ETH", 6.0)]),
        rows(&[("Core", 7.0)]),
        rows(&[("Base", 8.0)]),
        20.0,
    );
    assert_eq!(store.assets.len(), 2);
    assert_eq!(store.assets.get(0).data, 1.0);
    assert_eq!(store.groups.len(), 1);
    assert_eq!(store.groups.get(0).data, 3.0);
    assert_eq!(store.barca.len(), 1);
    assert_eq!(store.barca.get(0).data, 4.0);
    assert_eq!(store.totals.len(), 1);
    assert_eq!(store.totals.get(0).data, 20.0);
    assert_eq!(store.totals.get(0).key, "");
}

#[test]
fn history_level_names() {
    assert_eq!(HistoryLevel::from_name("assets"), HistoryLevel::Assets);
    assert_eq!(HistoryLevel::from_name("groups"), HistoryLevel::Groups);
    assert_eq!(HistoryLevel::from_name("barca"), HistoryLevel::Barca);
    assert_eq!(HistoryLevel::from_name("totals"), HistoryLevel::Totals);
    assert_eq!(HistoryLevel::from_name("anything"), HistoryLevel::Totals);
}

#[test]
fn allocation_log_appends_records() {
    let mut log = AllocationLog::new();
    log.persist_allocation_record(AllocationRecord { computed_at: "t1".to_string(), payload: 1u32 });
    log.persist_allocation_record(AllocationRecord { computed_at: "t1".to_string(), payload: 2u32 });
    assert_eq!(log.len(), 2);
    assert_eq!(log.get(0).payload, 1);
    assert_eq!(log.get(1).payload, 2);
}
