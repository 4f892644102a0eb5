use std::rc::Rc;
use ipmes_rust::input_event::InputEvent;
use ipmes_rust::pattern::{Pattern, SubPattern};
use ipmes_rust::process_layers::matching_layer::default_matcher::{construct_regex, DefaultMatcher};
use ipmes_rust::process_layers::matching_layer::matcher::Matcher;
use ipmes_rust::process_layers::matching_layer::matching::MatchingLayer;
use ipmes_rust::process_layers::matching_layer::transitive_closure::TransitiveClosure;

#[test]
fn basic_test() {
    let mut tc = TransitiveClosure::new();
    tc.add(2, 3);
    tc.add(1, 2);
    assert!(tc.is_reachable(1, 3));
    tc.add(4, 5);
    assert!(!tc.is_reachable(1, 5));
}

#[test]
fn transitive_closure_test_cycle() {
    let mut tc = TransitiveClosure::new();
    tc.add(1, 2);
    tc.add(2, 3);
    tc.add(3, 4);
    tc.add(3, 1);
    assert!(tc.is_reachable(1, 4));
    assert!(tc.is_reachable(3, 1));
    assert!(tc.is_reachable(3, 2));
    assert!(!tc.is_reachable(4, 1));
}

#[test]
fn transitive_closure_nodes_reach_themselves() {
    let mut tc = TransitiveClosure::new();
    assert!(!tc.is_reachable(7, 7));
    tc.add(7, 8);
    assert!(tc.is_reachable(7, 7));
    assert!(tc.is_reachable(8, 8));
    assert!(tc.is_reachable(7, 8));
    assert!(!tc.is_reachable(8, 7));
    tc.add(7, 8);
    assert!(!tc.is_reachable(8, 7));
}

#[test]
fn transitive_closure_chain_and_merge() {
    let mut tc = TransitiveClosure::new();
    tc.add(5, 6);
    tc.add(6, 7);
    tc.add(1, 2);
    tc.add(2, 5);
    for (a, b) in [(1, 7), (2, 6), (1, 5), (5, 7)] {
        assert!(tc.is_reachable(a, b));
    }
    assert!(!tc.is_reachable(7, 1));
    assert!(!tc.is_reachable(6, 2));
}

fn event(id: u64, sig: &str, subject_sig: &str, object_sig: &str) -> Rc<InputEvent> {
    Rc::new(InputEvent::new(id, id, sig, 1, subject_sig, 2, object_sig))
}

#[test]
fn default_matcher_literal_and_regex() {
    let pattern = Pattern::from_graph(&["u", "v"], &[(0, 1, "edge[0-9]+")], false);
    let literal = DefaultMatcher::new(&pattern.events[0], false).unwrap();
    assert!(!literal.is_match(&event(1, "edge1", "u", "v")));
    assert!(literal.is_match(&event(2, "edge[0-9]+", "u", "v")));

    let mut regex = DefaultMatcher::new(&pattern.events[0], true).unwrap();
    assert!(regex.is_match(&event(3, "edge1234", "u", "v")));
    assert!(!regex.is_match(&event(4, "edge", "u", "v")));
    assert!(!regex.is_match(&event(5, "edge1", "u", "w")));
    let (m, more) = regex.get_match(&event(6, "edge7", "u", "v")).unwrap();
    assert_eq!(m.input_event.event_id, 6);
    assert_eq!(m.match_ord, 0);
    assert!(!more);
    assert!(regex.get_match(&event(7, "edge", "u", "v")).is_none());
}

#[test]
fn default_matcher_reports_bad_regex() {
    let pattern = Pattern::from_graph(&["u", "v"], &[(0, 1, "edge[")], true);
    assert!(DefaultMatcher::new(&pattern.events[0], true).is_err());
    assert!(DefaultMatcher::new(&pattern.events[0], false).is_ok());
}

#[test]
fn matching_layer_orders_by_pattern_event() {
    let pattern = Pattern::from_graph(&["u", "v", "w"], &[(0, 1, "edge1"), (1, 2, "edge2"), (0, 1, "edge0")], false);
    let decomposition = [SubPattern { id: 0, events: pattern.events.iter().collect() }];
    let layer = MatchingLayer::new(&pattern, &decomposition).unwrap();
    let batch = vec![event(10, "edge2", "v", "w"), event(11, "edge1", "u", "v"), event(12, "edge0", "u", "v")];
    let matches = layer.match_batch(&batch);
    let got: Vec<(usize, u64)> = matches.iter().map(|m| (m.match_ord, m.input_event.event_id)).collect();
    assert_eq!(got, vec![(0, 11), (1, 10), (2, 12)]);
}

fn simple_input_edge(id: u64, signature: &str) -> Rc<InputEvent> {
    Rc::new(InputEvent::new(0, id, signature, 1, "u", 2, "v"))
}

fn matched_ids(layer: &MatchingLayer, batches: Vec<Vec<Rc<InputEvent>>>) -> Vec<u64> {
    let mut ids = vec![];
    for batch in batches {
        for m in layer.match_batch(&batch) {
            ids.push(m.input_event.event_id);
        }
    }
    ids
}

#[test]
fn test_no_regex() {
    let pattern = Pattern::from_graph(&["u", "v"], &[(0, 1, "edge[0-9]+")], false);
    let decomposition = [SubPattern { id: 0, events: vec![&pattern.events[0]] }];
    let time_batch = vec![
        simple_input_edge(1, "edge[0-9]+"),
        simple_input_edge(2, "edge1234"),
        simple_input_edge(3, "edge1"),
        simple_input_edge(4, "ed"),
    ];
    let layer = MatchingLayer::new(&pattern, &decomposition).unwrap();
    assert_eq!(matched_ids(&layer, vec![time_batch]), vec![1]);
}

#[test]
fn test_regex() {
    let pattern = Pattern::from_graph(&["u", "v"], &[(0, 1, "edge[0-9]+")], true);
    let decomposition = [SubPattern { id: 0, events: vec![&pattern.events[0]] }];
    let time_batch = vec![
        simple_input_edge(1, "edge[0-9]+"),
        simple_input_edge(2, "edge1234"),
        simple_input_edge(3, "edge1"),
        simple_input_edge(4, "ed"),
    ];
    let layer = MatchingLayer::new(&pattern, &decomposition).unwrap();
    assert_eq!(matched_ids(&layer, vec![time_batch]), vec![2, 3]);
}

#[test]
fn test_reorder() {
    let pattern = Pattern::from_graph(&["u", "v"], &[(0, 1, "edge1"), (0, 1, "edge2")], false);
    let decomposition = [SubPattern { id: 0, events: vec![&pattern.events[0], &pattern.events[1]] }];
    let time_batch = vec![
        simple_input_edge(1, "edge0"),
        simple_input_edge(2, "edge2"),
        simple_input_edge(3, "edge1"),
        simple_input_edge(4, "edge2"),
    ];
    let layer = MatchingLayer::new(&pattern, &decomposition).unwrap();
    assert_eq!(matched_ids(&layer, vec![time_batch]), vec![3, 2, 4]);
}

#[test]
fn test_multiple_time_batch() {
    let pattern = Pattern::from_graph(&["u", "v"], &[(0, 1, "edge1"), (0, 1, "edge2")], false);
    let decomposition = [SubPattern { id: 0, events: vec![&pattern.events[0], &pattern.events[1]] }];
    let time_batch1 = vec![
        simple_input_edge(1, "edge0"),
        simple_input_edge(2, "edge2"),
        simple_input_edge(3, "edge1"),
        simple_input_edge(4, "edge2"),
    ];
    let time_batch2 = vec![
        simple_input_edge(5, "edge2"),
        simple_input_edge(6, "edge0"),
        simple_input_edge(7, "edge1"),
    ];
    let layer = MatchingLayer::new(&pattern, &decomposition).unwrap();
    assert_eq!(matched_ids(&layer, vec![time_batch1, time_batch2]), vec![3, 2, 4, 7, 5]);
}

#[test]
fn escaped_pattern_matches_literally() {
    let literal = construct_regex("a.b(c)", true).unwrap();
    assert!(literal.is_match("a.b(c)"));
    assert!(!literal.is_match("axbc"));
    let pattern = construct_regex("a.b", false).unwrap();
    assert!(pattern.is_match("axb"));
    assert!(!pattern.is_match("xaxb"));
}
