use std::rc::Rc;
use ipmes_rust::pattern_match::PatternMatch;
use ipmes_rust::process_layers::parse_layer::{parse_record, parse_timestamp, record_in_range, timestamp_in_range, ParseLayer, RecordParseResult};
use ipmes_rust::process_layers::uniqueness_layer::UniquenessLayer;

#[test]
fn test_timestamp_parsing() {
    assert_eq!(parse_timestamp("0"), Some(0));
    assert_eq!(parse_timestamp("100"), Some(100 * 1000));
    assert_eq!(parse_timestamp("1.123"), Some(1123));
    assert_eq!(parse_timestamp("1.12"), Some(1120));
    assert_eq!(parse_timestamp("1.1234"), Some(1123));
    assert_eq!(parse_timestamp("1."), Some(1000));
}

#[test]
fn timestamp_rejects_non_digits() {
    assert_eq!(parse_timestamp("1a"), None);
    assert_eq!(parse_timestamp("1.2x"), None);
}

fn record(fields: &[&str]) -> Vec<String> {
    fields.iter().map(|s| s.to_string()).collect()
}

#[test]
fn record_parsing_single_and_dual() {
    match parse_record(&record(&["1.5", "1.5", "7", "read", "3", "proc", "4", "file"])) {
        Some(RecordParseResult::Single(e)) => {
            assert_eq!(e.timestamp, 1500);
            assert_eq!(e.event_id, 7);
            assert_eq!(e.subject_id, 3);
            assert_eq!(e.object_id, 4);
            assert_eq!(e.get_signatures(), "read\0proc\0file");
        },
        _ => panic!("expected one event"),
    }
    match parse_record(&record(&["1", "2", "7", "read", "3", "proc", "4", "file"])) {
        Some(RecordParseResult::Dual(a, b)) => {
            assert_eq!(a.timestamp, 1000);
            assert_eq!(b.timestamp, 2000);
        },
        _ => panic!("expected two events"),
    }
    assert!(parse_record(&record(&["1", "2", "x", "read", "3", "proc", "4", "file"])).is_none());
    assert!(parse_record(&record(&["1", "2"])).is_none());
}

#[test]
fn parse_layer_orders_batches() {
    let mut layer = ParseLayer::new();
    layer.accept_record(&record(&["2", "2", "1", "a", "1", "u", "2", "v"]));
    assert!(layer.get_batch().is_none());
    layer.accept_record(&record(&["1", "3", "2", "b", "1", "u", "2", "v"]));
    assert!(layer.get_batch().is_none());
    layer.accept_record(&record(&["4", "4", "3", "c", "1", "u", "2", "v"]));
    let batch = layer.get_batch().unwrap();
    let got: Vec<(u64, u64)> = batch.iter().map(|e| (e.timestamp, e.event_id)).collect();
    assert_eq!(got, vec![(1000, 2), (2000, 1), (3000, 2)]);
    assert!(layer.nothing_to_send());
    layer.end_of_input();
    let batch = layer.get_batch().unwrap();
    let got: Vec<(u64, u64)> = batch.iter().map(|e| (e.timestamp, e.event_id)).collect();
    assert_eq!(got, vec![(4000, 3)]);
    assert!(layer.get_batch().is_none());
}

fn pattern_match(earliest: u64, latest: u64, ids: &[u64]) -> PatternMatch {
    PatternMatch { latest_time: latest, earliest_time: earliest, event_ids: ids.to_vec(), match_event_map: vec![] }
}

#[test]
fn uniqueness_layer_drops_duplicates() {
    let mut layer = UniquenessLayer::new(10);
    layer.accept(pattern_match(1, 2, &[1, 2]));
    layer.accept(pattern_match(1, 3, &[1, 2]));
    layer.accept(pattern_match(2, 4, &[2, 3]));
    layer.flush_all();
    let mut out = vec![];
    while let Some(m) = layer.pop_unique() {
        out.push(m.event_ids);
    }
    out.sort();
    assert_eq!(out, vec![vec![1, 2], vec![2, 3]]);
    assert!(!layer.has_unique());
    let _ = Rc::new(0);
}

#[test]
fn range_checks_are_exact() {
    assert!(timestamp_in_range("1725029869.123456"));
    assert!(timestamp_in_range("18446744073709551.615"));
    assert!(!timestamp_in_range("18446744073709551.616"));
    assert!(timestamp_in_range("1844674407370955161x"));
    assert!(!timestamp_in_range("18446744073709551616"));
    assert!(timestamp_in_range("abc"));
    assert!(record_in_range(&record(&["1725029869.123456", "1725029869.5", "7", "read", "3", "proc", "4", "file"])));
    assert!(!record_in_range(&record(&["1.5", "99999999999999999999", "7"])));
    assert!(record_in_range(&record(&["x", "99999999999999999999", "7"])));
    assert!(record_in_range(&record(&[])));
    assert_eq!(parse_timestamp("18446744073709551.615"), Some(u64::MAX));
}
