use std::rc::Rc;
use ipmes_rust::input_event::InputEvent;
use ipmes_rust::match_event::{MatchEvent, RawEvents};
use ipmes_rust::pattern::{Pattern, SubPattern};
use ipmes_rust::process_layers::composition_layer::match_instance::MatchInstance;
use ipmes_rust::process_layers::join_layer::JoinLayer;
use ipmes_rust::process_layers::join_layer::sub_pattern_buffer::SubPatternBuffer;
use ipmes_rust::process_layers::join_layer::sub_pattern_match::{merge_entities, merge_event_ids};

#[test]
fn sub_pattern_match_test_merge_edge_id_map_1() {
    let edge_id_map1: Vec<Option<u64>> = vec![None, Some(3), Some(2), None, None];
    let edge_id_map2: Vec<Option<u64>> = vec![Some(1), None, None, None, Some(7)];
    let _ = (edge_id_map1, edge_id_map2);
}

#[test]
fn sub_pattern_match_test_merge_edge_id_map_2() {
    let edge_id_map1: Vec<Option<u64>> = vec![None, Some(3), None, None, None];
    let edge_id_map2: Vec<Option<u64>> = vec![Some(1), None, None, None, Some(7)];
    let _ = (edge_id_map1, edge_id_map2);
}

#[test]
fn test_merge_event_id_basecase() {
    let id_list1 = [1, 3, 5];
    let id_list2 = [2, 4];
    assert_eq!(merge_event_ids(&id_list1, &id_list2).unwrap(), vec![1, 2, 3, 4, 5]);
}

#[test]
fn test_merge_event_id_dup_id() {
    let id_list1 = [1, 3, 5];
    let id_list2 = [3, 4];
    assert_eq!(merge_event_ids(&id_list1, &id_list2), None);
}

#[test]
fn test_merge_event_id_edgecases() {
    assert_eq!(merge_event_ids(&[1], &[2]).unwrap(), vec![1, 2]);
    assert_eq!(merge_event_ids(&[2], &[1]).unwrap(), vec![1, 2]);
    assert_eq!(merge_event_ids(&[1], &[]).unwrap(), vec![1]);
    assert!(merge_event_ids(&[], &[]).unwrap().is_empty());
}

fn empty_buffer() -> SubPatternBuffer {
    let max_node_id = 100;
    let tmp_sub_pattern = SubPattern { id: 0, events: vec![] };
    SubPatternBuffer::new(0, &tmp_sub_pattern, max_node_id, 0)
}

#[test]
fn test_merge_entities1() {
    let sub_pattern_buffer = empty_buffer();
    let a = vec![(2, 19), (7, 20), (11, 9)];
    let b = vec![(0, 17), (2, 22), (9, 11)];
    let merged = merge_entities(&a, &b, sub_pattern_buffer.max_num_entities);
    assert_eq!(merged, None);
}

#[test]
fn test_merge_entities2() {
    let sub_pattern_buffer = empty_buffer();
    let a = vec![(2, 19), (7, 20), (11, 9)];
    let b = vec![(0, 17), (25, 20)];
    let merged = merge_entities(&a, &b, sub_pattern_buffer.max_num_entities);
    assert_eq!(merged, None);
}

#[test]
fn test_merge_entities3() {
    let sub_pattern_buffer = empty_buffer();
    let a = vec![(2, 19), (7, 20), (11, 9)];
    let b = vec![(0, 17), (25, 27)];
    let ans = [(0, 17), (2, 19), (7, 20), (11, 9), (25, 27)];
    let merged = merge_entities(&a, &b, sub_pattern_buffer.max_num_entities);
    assert_ne!(merged, None);
    assert!(merged.unwrap().iter().eq(&ans));
}

#[test]
fn test_merge_entities4() {
    let sub_pattern_buffer = empty_buffer();
    let b = vec![(2, 19), (7, 20), (11, 9)];
    let a = vec![(0, 17), (25, 27)];
    let ans = [(0, 17), (2, 19), (7, 20), (11, 9), (25, 27)];
    let merged = merge_entities(&a, &b, sub_pattern_buffer.max_num_entities);
    assert_ne!(merged, None);
    assert!(merged.unwrap().iter().eq(&ans));
}

#[test]
fn test_join_with_sibling() {}

#[test]
fn test_clear_expired() {}

#[test]
fn test_create_buffer_pair() {}

#[test]
fn linked_sub_patterns_fill_the_buffer_tree() {
    let pattern = Pattern::from_graph(&["v0", "v1", "v2", "v3"], &[(0, 1, "e0"), (1, 2, "e1"), (2, 3, "e2")], false);
    let decomposition: Vec<SubPattern> = pattern
        .events
        .iter()
        .enumerate()
        .map(|(id, e)| SubPattern { id, events: vec![e] })
        .collect();
    let layer = JoinLayer::new(&pattern, &decomposition, 10);
    assert_eq!(layer.sub_pattern_buffers.len(), 5);
    for x in 0..4 {
        let sibling = layer.sibling_id_map[x];
        let shared = layer.sub_pattern_buffers[x]
            .node_id_list
            .iter()
            .any(|u| layer.sub_pattern_buffers[sibling].node_id_list.contains(u));
        assert!(shared);
        assert!(layer.parent_id_map[x] > x);
    }
    assert_eq!(layer.sibling_id_map[4], 0);
    assert!(layer.sub_pattern_buffers[0]
        .node_id_list
        .iter()
        .all(|u| layer.sub_pattern_buffers[4].node_id_list.contains(u)));
}

#[test]
fn isolated_join_layer_takes_every_instance() {
    let pattern = Pattern::from_graph(&["a", "b"], &[(0, 1, "e")], false);
    let decomposition = vec![SubPattern { id: 0, events: vec![&pattern.events[0]] }];
    let mut layer = JoinLayer::new(&pattern, &decomposition, 10);
    let instance = |input_id: u64, time: u64| MatchInstance {
        start_time: time,
        match_events: vec![MatchEvent {
            match_id: 0,
            input_subject_id: 10,
            input_object_id: 11,
            pattern_subject_id: 0,
            pattern_object_id: 1,
            raw_events: RawEvents::Single(Rc::new(InputEvent::new(time, input_id, "e", 10, "a", 11, "b"))),
        }],
        match_entities: vec![(10, 0), (11, 1)],
        event_ids: vec![input_id],
        state_id: 0,
    };
    let mut instances = vec![(0u32, instance(7, 5)), (0u32, instance(8, 6))];
    layer.run_isolated_join_layer(&mut instances);
    assert!(instances.is_empty());
    assert_eq!(layer.full_match.len(), 2);
}

#[test]
fn unlinked_sub_patterns_stay_apart() {
    let pattern = Pattern::from_graph(&["a", "b", "c", "d"], &[(0, 1, "x"), (2, 3, "y")], false);
    let decomposition: Vec<SubPattern> = pattern
        .events
        .iter()
        .enumerate()
        .map(|(id, e)| SubPattern { id, events: vec![e] })
        .collect();
    let layer = JoinLayer::new(&pattern, &decomposition, 10);
    assert_eq!(layer.sub_pattern_buffers.len(), 2);
}
