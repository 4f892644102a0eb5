use ipmes_rust::process_layers::composition_layer::flow_tracer::{FlowTracer, ReachSet};
use std::collections::{HashMap, HashSet};

fn set_eq(a: Vec<u64>, b: &[u64]) -> bool {
    let mut a = a;
    let mut b = b.to_vec();
    a.sort();
    b.sort();
    a == b
}

fn map(items: Vec<(u64, HashSet<u64>)>) -> HashMap<u64, HashSet<u64>> {
    let mut res = HashMap::new();
    for (k, v) in items {
        res.insert(k, v);
    }
    res
}

fn set(items: &[u64]) -> HashSet<u64> {
    items.iter().copied().collect()
}

#[test]
fn flow_tracer_test_basic() {
    let mut t = FlowTracer::new(10);
    let is_match = |_: u64| true;
    assert!(set_eq(t.add_arc(1, 2, 0, is_match), &[1]));
    assert!(set_eq(t.add_arc(2, 3, 1, is_match), &[1, 2]));
    assert!(set_eq(t.add_arc(4, 2, 2, is_match), &[4]));
}

#[test]
fn flow_tracer_test_windowing() {
    let mut t = FlowTracer::new(10);
    let is_match = |_: u64| true;
    assert!(set_eq(t.add_arc(1, 2, 0, is_match), &[1]));
    assert!(set_eq(t.add_arc(2, 3, 11, is_match), &[2]));
    assert!(set_eq(t.add_arc(3, 4, 21, is_match), &[2, 3]));
}

#[test]
fn flow_tracer_test_cycle() {
    let mut t = FlowTracer::new(10);
    let is_match = |_: u64| true;
    assert!(set_eq(t.add_arc(1, 2, 0, is_match), &[1]));
    assert!(set_eq(t.add_arc(2, 3, 1, is_match), &[1, 2]));
    assert!(set_eq(t.add_arc(3, 1, 2, is_match), &[2, 3]));
}

#[test]
fn flow_tracer_test_add_batch() {
    let mut t = FlowTracer::new(10);
    let is_match = |_: u64| true;
    assert!(set_eq(t.add_arc(1, 2, 0, is_match), &[1]));
    let res = t.add_batch(&[(4, 5), (3, 4), (2, 3), (6, 7), (7, 8)], 1, is_match);
    let ans = map(vec![
        (3, set(&[1, 2])),
        (4, set(&[1, 2, 3])),
        (5, set(&[1, 2, 3, 4])),
        (7, set(&[6])),
        (8, set(&[6, 7])),
    ]);
    assert_eq!(res, ans);
}

#[test]
fn flow_tracer_add_batch_cycle() {
    let mut t = FlowTracer::new(10);
    let is_match = |_: u64| true;
    assert!(set_eq(t.add_arc(1, 2, 0, is_match), &[1]));
    let res = t.add_batch(&[(3, 1), (2, 3)], 1, is_match);
    let ans = map(vec![(1, set(&[2, 3])), (3, set(&[1, 2]))]);
    assert_eq!(res, ans);
}

#[test]
fn test_scc() {
    let mut t = FlowTracer::new(10);
    let is_match = |_: u64| true;
    assert!(set_eq(t.add_arc(1, 2, 0, is_match), &[1]));
    assert_eq!(
        t.add_batch(&[(2, 3), (3, 4), (4, 2), (3, 5)], 1, is_match),
        map(vec![
            (2, set(&[3, 4])),
            (3, set(&[1, 2, 4])),
            (4, set(&[1, 2, 3])),
            (5, set(&[1, 2, 3, 4])),
        ])
    );
    assert!(set_eq(t.add_arc(6, 2, 2, is_match), &[6]));
    assert!(set_eq(t.add_arc(3, 7, 2, is_match), &[1, 2, 3, 4]));
}

#[test]
fn flow_tracer_mix_add_batch_and_add_arc() {
    let mut t = FlowTracer::new(10);
    let is_match = |_: u64| true;
    assert!(set_eq(t.add_arc(1, 2, 0, is_match), &[1]));
    assert!(set_eq(t.add_arc(3, 1, 1, is_match), &[3]));
    assert_eq!(
        t.add_batch(&[(2, 3), (4, 2), (5, 1)], 2, is_match),
        map(vec![(1, set(&[5])), (2, set(&[4])), (3, set(&[1, 2, 4]))])
    );
    assert!(set_eq(t.add_arc(1, 2, 3, is_match), &[1, 3, 5]));
}

#[test]
fn flow_tracer_self_arc_changes_nothing() {
    let mut t = FlowTracer::new(10);
    let is_match = |_: u64| true;
    assert!(set_eq(t.add_arc(1, 2, 0, is_match), &[1]));
    assert!(t.add_arc(2, 2, 1, is_match).is_empty());
    assert_eq!(t.get_updated_time(1, 2), Some(0));
    assert_eq!(t.get_updated_time(2, 2), Some(0));
}

#[test]
fn flow_tracer_unmatched_source_is_not_traced() {
    let mut t = FlowTracer::new(10);
    let is_match = |x: u64| x != 1;
    assert!(t.add_arc(1, 2, 0, is_match).is_empty());
    assert_eq!(t.get_updated_time(1, 2), None);
    assert_eq!(t.get_updated_time(2, 2), Some(0));
    assert!(set_eq(t.add_arc(2, 3, 4, is_match), &[2]));
    assert_eq!(t.get_updated_time(2, 3), Some(4));
}

#[test]
fn flow_tracer_flow_extends_along_arc() {
    let mut t = FlowTracer::new(10);
    let is_match = |_: u64| true;
    t.add_arc(1, 2, 3, is_match);
    t.add_arc(2, 3, 5, is_match);
    assert_eq!(t.get_updated_time(1, 3), Some(3));
    assert_eq!(t.get_updated_time(2, 3), Some(5));
    assert_eq!(t.get_updated_time(3, 1), None);
}

#[test]
fn flow_tracer_del_outdated_drops_old_sets() {
    let mut t = FlowTracer::new(100);
    let is_match = |_: u64| true;
    t.add_arc(1, 2, 0, is_match);
    t.add_arc(3, 4, 50, is_match);
    t.del_outdated(10);
    assert_eq!(t.get_updated_time(1, 2), None);
    assert_eq!(t.get_updated_time(3, 4), Some(50));
    assert_eq!(t.reach_sets.len(), 1);
}

#[test]
fn reach_set_union_reports_improved_nodes() {
    let mut a = ReachSet::new(1, 5, true);
    let mut b = ReachSet::new(2, 7, true);
    assert!(b.update_or_insert(1, 3, 0));
    assert!(b.update_or_insert(9, 1, 0));
    let mut got = a.unioned_by(&b, 2);
    got.sort();
    assert_eq!(got, vec![2]);
    assert_eq!(a.get_update_time_of(1), Some(5));
    assert_eq!(a.get_update_time_of(2), Some(7));
    assert_eq!(a.get_update_time_of(9), None);
    assert_eq!(a.latest_time, 7);
}

#[test]
fn reach_set_update_or_insert_respects_bound() {
    let mut a = ReachSet::new(1, 5, true);
    assert!(!a.update_or_insert(2, 3, 4));
    assert!(!a.update_or_insert(1, 4, 0));
    assert!(a.update_or_insert(1, 6, 0));
    assert_eq!(a.get_update_time_of(1), Some(6));
    assert_eq!(a.latest_time, 6);
}

#[test]
fn reach_set_difference_lists_newer_nodes() {
    let mut a = ReachSet::new(1, 5, true);
    a.update_or_insert(2, 6, 0);
    a.update_or_insert(3, 2, 0);
    let mut b = ReachSet::new(1, 5, true);
    b.update_or_insert(2, 4, 0);
    b.update_or_insert(3, 9, 0);
    let mut diff = a.difference(&b);
    diff.sort();
    assert_eq!(diff, vec![2]);
    let mut all = a.iter();
    all.sort();
    assert_eq!(all, vec![1, 2, 3]);
}

#[test]
fn reach_set_refresh_only_touches_members() {
    let mut a = ReachSet::new(1, 5, false);
    assert!(a.is_empty());
    a.refresh_node(1, 9);
    assert!(a.is_empty());
    assert_eq!(a.latest_time, 5);
    a.update_or_insert(1, 6, 0);
    a.refresh_node(1, 9);
    assert_eq!(a.get_update_time_of(1), Some(9));
    assert_eq!(a.latest_time, 9);
}

#[test]
fn reach_set_del_outdated_cases() {
    let mut a = ReachSet::new(1, 5, true);
    a.update_or_insert(2, 8, 0);
    a.del_outdated(5);
    assert_eq!(a.iter().len(), 2);
    a.del_outdated(7);
    assert_eq!(a.get_update_time_of(1), None);
    assert_eq!(a.get_update_time_of(2), Some(8));
    assert_eq!(a.oldest_time_hint, 8);
    a.del_outdated(20);
    assert!(a.is_empty());
}

#[test]
fn reach_set_merge_keeps_newest_within_bound() {
    let mut a = ReachSet::new(1, 5, true);
    a.update_or_insert(2, 3, 0);
    let mut b = ReachSet::new(2, 7, true);
    b.update_or_insert(1, 2, 0);
    let c = ReachSet::new(3, 1, true);
    let m = ReachSet::merge(&[a, b, c], 3);
    assert_eq!(m.get_update_time_of(1), Some(5));
    assert_eq!(m.get_update_time_of(2), Some(7));
    assert_eq!(m.get_update_time_of(3), None);
    assert_eq!(m.latest_time, 7);
    assert_eq!(m.oldest_time_hint, 3);
}

#[test]
fn flow_tracer_batch_cycle_shares_sets() {
    let mut t = FlowTracer::new(10);
    let is_match = |_: u64| true;
    t.add_arc(1, 2, 0, is_match);
    t.add_batch(&[(2, 3), (3, 4), (4, 2)], 1, is_match);
    for x in [1, 2, 3, 4, 5] {
        assert_eq!(t.get_updated_time(x, 2), t.get_updated_time(x, 3));
        assert_eq!(t.get_updated_time(x, 3), t.get_updated_time(x, 4));
    }
    assert_eq!(t.get_updated_time(1, 4), Some(0));
    assert_eq!(t.get_updated_time(2, 4), Some(1));
}

#[test]
fn cycle_member_keeps_only_its_merge_gains() {
    let mut t = FlowTracer::new(10);
    let is_match = |_: u64| true;
    let res = t.add_batch(&[(1, 2), (2, 1), (3, 1)], 5, is_match);
    assert_eq!(res, map(vec![(1, set(&[2, 3])), (2, set(&[1]))]));
    assert_eq!(t.get_updated_time(3, 2), Some(5));
}
