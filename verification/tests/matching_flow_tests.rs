use ipmes_rust::process_layers::matching_layer::flow_tracer::{FlowTracer, ReachSet};

#[test]
fn test_basic() {
    let mut t = FlowTracer::new(10);
    t.add_arc(1, 2, 0);
    t.add_arc(2, 3, 0);
    assert!(t.query(1, 3));
    t.add_arc(4, 2, 0);
    assert!(t.query(4, 2));
    assert!(!t.query(4, 3));
}

#[test]
fn test_windowing() {
    let mut t = FlowTracer::new(10);
    t.add_arc(1, 2, 0);
    t.add_arc(2, 3, 11);
    assert!(!t.query(1, 3));
    t.add_arc(3, 4, 21);
    assert!(t.query(2, 4));
}

#[test]
fn test_cycle() {
    let mut t = FlowTracer::new(10);
    t.add_arc(1, 2, 0);
    t.add_arc(2, 3, 0);
    t.add_arc(3, 1, 0);
    assert!(t.query(1, 3));
    assert!(t.query(2, 1));
    assert!(t.query(3, 1));
    assert!(!t.query(3, 2)); // because 1 -> 2 is before 3 -> 1
}

#[test]
fn test_add_batch() {
    let mut t = FlowTracer::new(10);
    t.add_arc(1, 2, 0);
    t.add_batch(&[(4, 5), (3, 4), (2, 3), (6, 7), (7, 8)], 1);

    assert!(t.query(1, 5));
    assert!(t.query(6, 8));
}

#[test]
fn add_batch_cycle() {
    let mut t = FlowTracer::new(10);
    t.add_arc(1, 2, 0);
    t.add_batch(&[(3, 1), (2, 3)], 1);

    assert!(t.query(1, 3));
    assert!(t.query(2, 3));
    assert!(t.query(2, 1));
    assert!(t.query(3, 1));
    assert!(!t.query(3, 2)); // because 1 -> 2 is before 3 -> 1
}

#[test]
fn mix_add_batch_and_add_arc() {
    let mut t = FlowTracer::new(10);
    t.add_arc(1, 2, 0);
    t.add_arc(3, 1, 0);
    t.add_batch(&[(2, 3), (4, 2), (5, 1)], 1);

    assert!(t.query(1, 3)); // 1, 2, 3
    assert!(!t.query(3, 2)); // because 1 -> 2 is before 3 -> 1
    assert!(t.query(4, 3)); // 4, 2, 3

    t.add_arc(1, 2, 0);
    assert!(t.query(3, 2)); // 3, 1, 2
}

#[test]
fn test_query_path_iter() {
    let mut t = FlowTracer::new(10);
    t.add_arc(1, 2, 0);
    t.add_arc(2, 3, 0);

    let set = t.sets.get(&3).unwrap();
    let mut path_iter = set.query_path_iter(1);
    assert_eq!(path_iter.next(), Some(1));
    assert_eq!(path_iter.next(), Some(2));
    assert_eq!(path_iter.next(), Some(3));
    assert_eq!(path_iter.next(), None);
}

#[test]
fn matching_flow_query_path_follows_parents() {
    let mut t = FlowTracer::new(10);
    t.add_arc(1, 2, 0);
    t.add_arc(2, 3, 1);
    let set = t.sets.get(&3).unwrap();
    let mut path = vec![42];
    set.query_path(1, &mut path);
    assert_eq!(path, vec![1, 2, 3]);
    set.query_path(3, &mut path);
    assert_eq!(path, vec![3]);
    let mut untouched = vec![7];
    set.query_path(9, &mut untouched);
    assert_eq!(untouched, vec![7]);
}

#[test]
fn matching_flow_path_iter_of_unknown_node_is_empty() {
    let mut t = FlowTracer::new(10);
    t.add_arc(1, 2, 0);
    let set = t.sets.get(&2).unwrap();
    let mut it = set.query_path_iter(2);
    assert_eq!(it.next(), None);
}

#[test]
fn matching_flow_self_arc_is_ignored() {
    let mut t = FlowTracer::new(10);
    t.add_arc(5, 5, 0);
    assert!(t.sets.is_empty());
    assert!(t.query(5, 5));
}

#[test]
fn matching_flow_arc_connects_source() {
    let mut t = FlowTracer::new(5);
    t.add_arc(1, 2, 0);
    t.add_arc(2, 3, 3);
    assert!(t.query(1, 3));
    assert!(t.query(2, 3));
    t.add_arc(3, 4, 9);
    assert!(t.query(3, 4));
    assert!(!t.query(1, 4));
}

#[test]
fn reach_set_connect_lists_taken_nodes() {
    let mut a = ReachSet::new(1, 0);
    let mut b = ReachSet::new(2, 0);
    let c = ReachSet::new(3, 0);
    b.connect_from(&c, 1, 0);
    assert!(b.query(3));
    assert_eq!(b.get_update_time(), 1);
    a.connect_from(&b, 2, 0);
    let mut updated = a.visit_updated_nodes();
    updated.sort();
    assert_eq!(updated, vec![3]);
    assert!(a.query(2) && a.query(3) && a.query(1));
    assert_eq!(a.get_id(), 1);
    assert_eq!(a.nodes.get(&3).unwrap().parent, 2);
    assert_eq!(a.nodes.get(&2).unwrap().parent, 1);
}

#[test]
fn reach_set_apply_needs_same_root_time() {
    let mut a = ReachSet::new(1, 0);
    let mut b = ReachSet::new(2, 0);
    let c = ReachSet::new(3, 0);
    a.connect_from(&b, 1, 0);
    b.connect_from(&c, 2, 0);
    a.apply_new_changes(&b, 0);
    assert!(!a.query(3));
    let mut d = ReachSet::new(4, 0);
    let mut e = ReachSet::new(5, 0);
    d.connect_from(&e, 2, 0);
    e.connect_from(&c, 2, 0);
    d.apply_new_changes(&e, 0);
    assert!(d.query(3));
    assert_eq!(d.visit_updated_nodes(), vec![3]);
}
