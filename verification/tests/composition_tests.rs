use std::rc::Rc;
use ipmes_rust::input_event::InputEvent;
use ipmes_rust::pattern::{Pattern, PatternEventType, SubPattern};
use ipmes_rust::process_layers::compo_layer::{CompoLayer, InstanceStorage, MatchInstance as CompoMatchInstance};
use ipmes_rust::process_layers::matching_layer::matching::MatchingLayer;
use ipmes_rust::process_layers::compo_layer::filter::FilterInfo as OrdFilterInfo;
use ipmes_rust::process_layers::compo_layer::InstanceRunner;
use ipmes_rust::process_layers::composition_layer::entity_encode::EntityEncode;
use ipmes_rust::process_layers::composition_layer::filter::FilterInfo;
use ipmes_rust::process_layers::composition_layer::match_instance::{dup_extend_entities_list, FreqInstance, MatchInstance};
use ipmes_rust::process_layers::composition_layer::state::StateInfo;
use ipmes_rust::process_layers::composition_layer::state_table::StateTable;

#[test]
fn match_instance_test_contains_event() {
    let mut instance = MatchInstance::dead_default();
    instance.event_ids = vec![1, 3, 7, 13, 50, 100];

    assert!(instance.contains_event(1));
    assert!(instance.contains_event(100));
    assert!(!instance.contains_event(0));
    assert!(!instance.contains_event(10));
}

#[test]
fn match_instance_test_conflict_with_entity() {
    let mut instance = MatchInstance::dead_default();
    instance.match_entities = vec![(100, 0), (101, 1), (103, 2)];

    assert!(!instance.conflict_with_entity(100, 0));
    assert!(instance.conflict_with_entity(100, 2));
}

#[test]
fn match_instance_test_dup_extend_entities_list() {
    let match_entities: Vec<(u64, u64)> = vec![(100, 1), (101, 0), (103, 2)];

    assert_eq!(
        dup_extend_entities_list(&match_entities, 104, 3).unwrap(),
        vec![(100, 1), (101, 0), (103, 2), (104, 3)],
    );
    assert_eq!(
        dup_extend_entities_list(&match_entities, 102, 3).unwrap(),
        vec![(100, 1), (101, 0), (102, 3), (103, 2)],
    );
    assert_eq!(dup_extend_entities_list(&match_entities, 100, 1), None);
    assert_eq!(dup_extend_entities_list(&match_entities, 100, 3), None);
}

#[test]
fn dup_extend_entities_list_starts_empty_list() {
    assert_eq!(dup_extend_entities_list(&[], 5, 1).unwrap(), vec![(5, 1)]);
}

#[test]
fn test_construction() {
    let enc = EntityEncode::subject_of(1);
    assert_eq!(enc.get_index(), 1);
    assert!(enc.is_subject());
    assert!(!enc.is_object());

    let enc = EntityEncode::object_of(1);
    assert_eq!(enc.get_index(), 1);
    assert!(!enc.is_subject());
    assert!(enc.is_object());
}

#[test]
fn test_get_entity() {
    let entities = [(0u64, 1u64), (2, 3)];
    let extractor = |x: &(u64, u64)| *x;

    let enc = EntityEncode::subject_of(1);
    assert_eq!(enc.get_entity(&entities, extractor), Some(2));

    let enc = EntityEncode::object_of(2);
    assert_eq!(enc.get_entity(&entities, extractor), None);
}

#[test]
fn reach_set_test() {}

fn four_event_pattern() -> Pattern {
    Pattern::from_graph(
        &["v1", "v2", "v3", "v4"],
        &[(0, 1, "e1"), (1, 2, "e2"), (3, 2, "e3"), (2, 3, "e4")],
        false,
    )
}

fn frequency_pattern() -> Pattern {
    let mut pattern = Pattern::from_graph(&["v1", "v2", "v3"], &[(0, 1, "e1"), (1, 2, "e2")], false);
    pattern.events[1].event_type = PatternEventType::Frequency(7);
    pattern
}

#[test]
fn state_table_test_new() {
    let pattern = four_event_pattern();
    let decomposition = [SubPattern { id: 0, events: pattern.events.iter().collect() }];
    let ans = vec![
        (StateInfo::Default { next_state: 1 }, FilterInfo::MatchIdxOnly { match_idx: 0 }),
        (
            StateInfo::Default { next_state: 2 },
            FilterInfo::Subject { match_idx: 1, subject: EntityEncode::object_of(0) },
        ),
        (
            StateInfo::Default { next_state: 3 },
            FilterInfo::Object { match_idx: 2, object: EntityEncode::object_of(1) },
        ),
        (
            StateInfo::Default { next_state: 4 },
            FilterInfo::Endpoints {
                match_idx: 3,
                subject: EntityEncode::object_of(2),
                object: EntityEncode::subject_of(2),
            },
        ),
        (StateInfo::Output { subpattern_id: 0 }, FilterInfo::NoFilter),
    ];
    let table = StateTable::new(&decomposition);
    assert_eq!(table.table, ans);
}

#[test]
fn built_table_moves_each_state_to_the_next() {
    let pattern = frequency_pattern();
    let decomposition = [SubPattern { id: 0, events: pattern.events.iter().collect() }];
    let table = StateTable::new(&decomposition);
    for s in 0..table.table.len() {
        if !matches!(table.table[s].0, StateInfo::Output { .. }) {
            assert_eq!(table.get_next_state(s as u32), s as u32 + 1);
        }
    }
}

#[test]
fn state_table_test_frequency_state_generation() {
    let pattern = frequency_pattern();
    let decomposition = [SubPattern { id: 0, events: pattern.events.iter().collect() }];
    let ans = vec![
        (StateInfo::Default { next_state: 1 }, FilterInfo::MatchIdxOnly { match_idx: 0 }),
        (
            StateInfo::InitFreq { next_state: 2 },
            FilterInfo::Subject { match_idx: 1, subject: EntityEncode::object_of(0) },
        ),
        (
            StateInfo::AggFreq { next_state: 3, frequency: 7 },
            FilterInfo::Endpoints {
                match_idx: 1,
                subject: EntityEncode::subject_of(1),
                object: EntityEncode::object_of(1),
            },
        ),
        (StateInfo::Output { subpattern_id: 0 }, FilterInfo::NoFilter),
    ];
    let table = StateTable::new(&decomposition);
    assert_eq!(table.table, ans);
}

#[test]
fn instance_runner_test_new() {
    let pattern = four_event_pattern();
    let decomposition = [SubPattern { id: 0, events: pattern.events.iter().collect() }];
    let ans = vec![
        (StateInfo::Default { next_state: 1 }, OrdFilterInfo::MatchOrdOnly { match_ord: 0 }),
        (
            StateInfo::Default { next_state: 2 },
            OrdFilterInfo::Subject { match_ord: 1, subject: EntityEncode::object_of(0) },
        ),
        (
            StateInfo::Default { next_state: 3 },
            OrdFilterInfo::Object { match_ord: 2, object: EntityEncode::object_of(1) },
        ),
        (
            StateInfo::Default { next_state: 4 },
            OrdFilterInfo::Endpoints {
                match_ord: 3,
                subject: EntityEncode::object_of(2),
                object: EntityEncode::subject_of(2),
            },
        ),
        (StateInfo::Output { subpattern_id: 0 }, OrdFilterInfo::NoFilter),
    ];
    let runner = InstanceRunner::new(&decomposition);
    assert_eq!(runner.state_table, ans);
}

#[test]
fn instance_runner_test_frequency_state_generation() {
    let pattern = frequency_pattern();
    let decomposition = [SubPattern { id: 0, events: pattern.events.iter().collect() }];
    let ans = vec![
        (StateInfo::Default { next_state: 1 }, OrdFilterInfo::MatchOrdOnly { match_ord: 0 }),
        (
            StateInfo::InitFreq { next_state: 2 },
            OrdFilterInfo::Subject { match_ord: 1, subject: EntityEncode::object_of(0) },
        ),
        (
            StateInfo::AggFreq { next_state: 3, frequency: 7 },
            OrdFilterInfo::Endpoints {
                match_ord: 1,
                subject: EntityEncode::subject_of(1),
                object: EntityEncode::object_of(1),
            },
        ),
        (StateInfo::Output { subpattern_id: 0 }, OrdFilterInfo::NoFilter),
    ];
    let runner = InstanceRunner::new(&decomposition);
    assert_eq!(runner.state_table, ans);
}

fn basic_pattern() -> Pattern {
    Pattern::from_graph(&["v0", "v1", "v2", "v3"], &[(0, 1, "e0"), (1, 2, "e1"), (2, 3, "e2")], false)
}

/// A batch holding one input event whose id is also its timestamp; `sig` is the signature of
/// the event, the subject and the object, separated by '#'.
fn one_event(eid: u64, sub_id: u64, obj_id: u64, sig: &str) -> Vec<Rc<InputEvent>> {
    let sigs: Vec<&str> = sig.split('#').collect();
    vec![Rc::new(InputEvent::new(eid, eid, sigs[0], sub_id, sigs[1], obj_id, sigs[2]))]
}

fn run_compo<'p>(
    pattern: &'p Pattern,
    decomposition: &[SubPattern<'p>],
    window_size: u64,
    input: Vec<Vec<Rc<InputEvent>>>,
) -> Vec<(u32, CompoMatchInstance<'p>)> {
    let matching = MatchingLayer::new(pattern, decomposition).unwrap();
    let runner = InstanceRunner::new(decomposition);
    let mut layer = CompoLayer::new(runner, window_size);
    for batch in input {
        for match_event in matching.match_batch(&batch) {
            layer.accept_match_event(&match_event);
        }
    }
    layer.runner.output_buffer
}

fn verify_instance(result: Option<(u32, CompoMatchInstance)>, expect_sub_pattern_id: u32, expect_ts: u64, expect_ids: &[u64]) {
    if let Some(output) = result {
        assert_eq!(output.0, expect_sub_pattern_id, "sub_pattern_id");
        let instance = output.1;
        assert_eq!(instance.start_time, expect_ts, "start_time");
        let mut sorted_ids = expect_ids.to_vec();
        sorted_ids.sort_unstable();
        assert_eq!(instance.event_ids, sorted_ids, "event_ids");
        let ids: Vec<u64> = instance.match_events.iter().map(|x| x.event_ids[0]).collect();
        assert_eq!(ids, expect_ids.to_vec(), "match_events");
    } else {
        panic!("result is None");
    }
}

#[test]
fn compo_layer_test_basic() {
    let pattern = basic_pattern();
    let window_size = u64::MAX;
    let decomposition = [SubPattern { id: 0, events: pattern.events.iter().collect() }];
    let input = vec![one_event(0, 0, 1, "e0#v0#v1"), one_event(1, 1, 2, "e1#v1#v2"), one_event(2, 2, 3, "e2#v2#v3")];
    let mut outputs = run_compo(&pattern, &decomposition, window_size, input);
    verify_instance(outputs.pop(), 0, 0, &[0, 1, 2]);
    assert!(outputs.pop().is_none());
}

#[test]
fn test_basic_windowing() {
    let pattern = basic_pattern();
    let window_size = 3;
    let decomposition = [SubPattern { id: 0, events: pattern.events.iter().collect() }];
    let input = vec![one_event(0, 0, 1, "e0#v0#v1"), one_event(1, 1, 2, "e1#v1#v2"), one_event(4, 2, 3, "e2#v2#v3")];
    let outputs = run_compo(&pattern, &decomposition, window_size, input);
    assert!(outputs.is_empty());
}

#[test]
fn compo_layer_keeps_unaddressed_instances() {
    let pattern = basic_pattern();
    let decomposition = [SubPattern { id: 0, events: pattern.events.iter().collect() }];
    let matching = MatchingLayer::new(&pattern, &decomposition).unwrap();
    let runner = InstanceRunner::new(&decomposition);
    let mut layer = CompoLayer::new(runner, 3);
    for batch in [one_event(0, 0, 1, "e0#v0#v1"), one_event(1, 5, 6, "e0#v0#v1")] {
        for match_event in matching.match_batch(&batch) {
            layer.accept_match_event(&match_event);
        }
    }
    // two instances wait for an event leaving their object
    assert_eq!(layer.storage.filtered_instances.len(), 2);
    // an event from entity 1 at time 10 addresses the first, which is out of the window
    for match_event in matching.match_batch(&one_event(10, 1, 2, "e1#v1#v2")) {
        layer.accept_match_event(&match_event);
    }
    assert_eq!(layer.storage.filtered_instances.len(), 1);
    assert_eq!(layer.storage.filtered_instances[0].1.event_ids, vec![1]);
    assert!(layer.runner.output_buffer.is_empty());
}

#[test]
fn test_init() {
    let state_table = [
        (StateInfo::Default { next_state: 1 }, OrdFilterInfo::MatchOrdOnly { match_ord: 0 }),
        (
            StateInfo::Default { next_state: 2 },
            OrdFilterInfo::Subject { match_ord: 1, subject: EntityEncode::object_of(0) },
        ),
        (StateInfo::Output { subpattern_id: 0 }, OrdFilterInfo::NoFilter),
        (StateInfo::Default { next_state: 4 }, OrdFilterInfo::MatchOrdOnly { match_ord: 2 }),
        (StateInfo::Output { subpattern_id: 0 }, OrdFilterInfo::NoFilter),
    ];

    let storage = InstanceStorage::init_from_state_table(&state_table);

    assert_eq!(storage.simple_instances.len(), 2);
    let placeholder = &storage.simple_instances.iter().find(|(m, _)| *m == 0).unwrap().1;
    assert_eq!(placeholder.state_id, 0);

    let placeholder = &storage.simple_instances.iter().find(|(m, _)| *m == 2).unwrap().1;
    assert_eq!(placeholder.state_id, 3);

    assert_eq!(storage.filtered_instances.len(), 0);
}

#[test]
fn frequency_instance_fills_after_new_ids() {
    let instance = MatchInstance { start_time: 0, match_events: vec![], match_entities: vec![], event_ids: vec![1, 2], state_id: 0 };
    let mut fi = FreqInstance::new(instance, 2, 5);
    let event = |id: u64| Rc::new(InputEvent::new(id, id, "e", 1, "a", 2, "b"));
    assert!(!fi.add_event(&event(1)));
    assert!(!fi.is_full());
    assert!(fi.add_event(&event(3)));
    assert!(!fi.is_full());
    assert!(!fi.add_event(&event(3)));
    assert!(fi.add_event(&event(4)));
    assert!(fi.is_full());
}
