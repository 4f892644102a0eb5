use std::rc::Rc;
use ipmes_rust::input_event::InputEvent;
use ipmes_rust::match_event::{MatchEvent, RawEvents};
use ipmes_rust::sub_pattern_match::{check_edge_uniqueness, merge_event_id_map};

fn match_event(id: u64) -> MatchEvent {
    MatchEvent {
        match_id: 0,
        input_subject_id: 0,
        input_object_id: 0,
        pattern_subject_id: 0,
        pattern_object_id: 0,
        raw_events: RawEvents::Single(Rc::new(InputEvent::new(0, id, "", 0, "", 0, ""))),
    }
}

#[test]
fn test_check_edge_uniqueness_1() {
    let match_edges = vec![match_event(1), match_event(2), match_event(2)];
    assert_eq!(check_edge_uniqueness(&match_edges), false);
}

#[test]
fn test_check_edge_uniqueness_2() {
    let match_edges = vec![match_event(1), match_event(2), match_event(3)];
    assert_eq!(check_edge_uniqueness(&match_edges), true);
}

#[test]
fn check_edge_uniqueness_compares_with_max_first() {
    let match_edges = vec![match_event(u64::MAX)];
    assert_eq!(check_edge_uniqueness(&match_edges), false);
    assert_eq!(check_edge_uniqueness(&[]), true);
}

#[test]
fn tests_test_merge_edge_id_map_1() {
    let edge_id_map1 = vec![None, Some(3), Some(2), None, None];
    let edge_id_map2 = vec![Some(1), None, None, None, Some(7)];
    let ans = vec![Some(1), Some(3), Some(2), None, Some(7)];
    assert_eq!(ans, merge_event_id_map(&edge_id_map1, &edge_id_map2));
}

#[test]
fn tests_test_merge_edge_id_map_2() {
    let edge_id_map1 = vec![None, Some(3), None, None, None];
    let edge_id_map2 = vec![Some(1), None, None, None, Some(7)];
    let ans = vec![Some(1), Some(3), None, None, Some(7)];
    assert_eq!(ans, merge_event_id_map(&edge_id_map1, &edge_id_map2));
}
