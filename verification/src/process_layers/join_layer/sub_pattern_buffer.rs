use vstd::prelude::*;
use vstd::std_specs::iter::IteratorSpec;
use std::collections::HashSet;
use std::rc::Rc;
use crate::match_event::MatchEvent;
use crate::pattern::{Pattern, PatternEvent, SubPattern};
use crate::pattern::order_relation::dependencies_of;
use crate::process_layers::join_layer::sub_pattern_match::SubPatternMatch;

verus! {

broadcast use vstd::std_specs::hash::group_hash_axioms;

/// The events of `map` at `idx1` and `idx2` are both present, and the first ends no later than
/// the second starts.
pub open spec fn order_kept(map: Seq<Option<Rc<MatchEvent>>>, idx1: int, idx2: int) -> bool {
    &&& map[idx1] is Some
    &&& map[idx2] is Some
    &&& (*map[idx1].unwrap()).raw_events.interval().1 <= (*map[idx2].unwrap()).raw_events.interval().0
}

/// Every order of `orders` is kept by the events of `map`.
pub open spec fn orders_kept(orders: Seq<(usize, usize)>, map: Seq<Option<Rc<MatchEvent>>>) -> bool {
    forall|k: int| 0 <= k < orders.len() ==> #[trigger] order_kept(map, orders[k].0 as int, orders[k].1 as int)
}

/// The indices of `orders` are within `n`.
pub open spec fn orders_below(orders: Seq<(usize, usize)>, n: nat) -> bool {
    forall|k: int| 0 <= k < orders.len() ==> #[trigger] orders[k].0 < n && orders[k].1 < n
}

/// Every event present in `map` has well-formed raw events.
pub open spec fn map_well_formed(map: Seq<Option<Rc<MatchEvent>>>) -> bool {
    forall|i: int| 0 <= i < map.len() ==> (#[trigger] map[i] matches Some(e) ==> e.raw_events.well_formed())
}

/// The dependencies of `deps` whose source lies in one event set and whose target lies in
/// the other, in order.
pub open spec fn cross_orders(deps: Seq<(int, int)>, edges1: Set<usize>, edges2: Set<usize>) -> Seq<(int, int)>
    decreases deps.len(),
{
    if deps.len() == 0 {
        Seq::empty()
    } else {
        let prev = cross_orders(deps.drop_last(), edges1, edges2);
        let d = deps.last();
        if (edges1.contains(d.0 as usize) && edges2.contains(d.1 as usize)) || (edges2.contains(
            d.0 as usize,
        ) && edges1.contains(d.1 as usize)) {
            prev.push(d)
        } else {
            prev
        }
    }
}

/// The order relations between two sibling buffers, and the pattern entities they share.
#[derive(Debug)]
pub struct Relation {
    /// `shared_entities.len() == num_node`
    ///
    /// If node `i` is shared, `shared_entities[i] == true`.
    pub shared_entities: Vec<bool>,
    /// `(pattern_id1, pattern_id2)`: the event `pattern_id1` must end no later than the event
    /// `pattern_id2` starts.
    pub event_orders: Vec<(usize, usize)>,
}

impl Clone for Relation {
    fn clone(&self) -> (res: Self)
        ensures
            res.shared_entities@ == self.shared_entities@,
            res.event_orders@ == self.event_orders@,
    {
        let mut event_orders: Vec<(usize, usize)> = Vec::new();
        let mut k: usize = 0;
        while k < self.event_orders.len()
            invariant
                k <= self.event_orders@.len(),
                event_orders@ =~= self.event_orders@.take(k as int),
            decreases self.event_orders@.len() - k,
        {
            event_orders.push(self.event_orders[k]);
            k += 1;
        }
        assert(self.event_orders@.take(self.event_orders@.len() as int) =~= self.event_orders@);
        Relation { shared_entities: self.shared_entities.clone(), event_orders }
    }
}

impl Relation {
    /// A relation with no shared entity and no order.
    pub fn new() -> (res: Self)
        ensures
            res.shared_entities@ == Seq::<bool>::empty(),
            res.event_orders@ == Seq::<(usize, usize)>::empty(),
    {
        Relation { shared_entities: Vec::new(), event_orders: Vec::new() }
    }

    /// Check whether the order relations hold between the events of a merged match.
    pub fn check_order_relation(&self, match_event_map: &[Option<Rc<MatchEvent>>]) -> (res: bool)
        requires
            orders_below(self.event_orders@, match_event_map@.len()),
            map_well_formed(match_event_map@),
        ensures
            res == orders_kept(self.event_orders@, match_event_map@),
    {
        let mut k: usize = 0;
        while k < self.event_orders.len()
            invariant
                k <= self.event_orders@.len(),
                orders_below(self.event_orders@, match_event_map@.len()),
                map_well_formed(match_event_map@),
                forall|j: int| 0 <= j < k ==> #[trigger] order_kept(
                    match_event_map@,
                    self.event_orders@[j].0 as int,
                    self.event_orders@[j].1 as int,
                ),
            decreases self.event_orders@.len() - k,
        {
            let (idx1, idx2) = self.event_orders[k];
            assert(idx1 < match_event_map@.len() && idx2 < match_event_map@.len());
            match (&match_event_map[idx1], &match_event_map[idx2]) {
                (Some(event1), Some(event2)) => {
                    assert(match_event_map@[idx1 as int] matches Some(e) ==> e.raw_events.well_formed());
                    assert(match_event_map@[idx2 as int] matches Some(e) ==> e.raw_events.well_formed());
                    if !Self::satisfy_order(event1, event2) {
                        assert(!order_kept(match_event_map@, idx1 as int, idx2 as int));
                        return false;
                    }
                },
                _ => {
                    assert(!order_kept(match_event_map@, idx1 as int, idx2 as int));
                    return false;
                },
            }
            k += 1;
        }
        true
    }

    /// The first event ends no later than the second starts.
    fn satisfy_order(event1: &MatchEvent, event2: &MatchEvent) -> (res: bool)
        requires
            event1.raw_events.well_formed(),
            event2.raw_events.well_formed(),
        ensures
            res == (event1.raw_events.interval().1 <= event2.raw_events.interval().0),
    {
        event1.raw_events.get_interval().1 <= event2.raw_events.get_interval().0
    }

    /// Whether the pattern entity `id` is shared by the two sibling buffers.
    pub fn is_entity_shared(&self, id: usize) -> (res: bool)
        requires
            id < self.shared_entities@.len(),
        ensures
            res == self.shared_entities@[id as int],
    {
        self.shared_entities[id]
    }
}

impl Default for Relation {
    fn default() -> (res: Self)
        ensures
            res.shared_entities@ == Seq::<bool>::empty(),
            res.event_orders@ == Seq::<(usize, usize)>::empty(),
    {
        Self::new()
    }
}

/// `rel` is the relation between sibling buffers `b1` and `b2` of `pattern`: the entities both
/// hold, and the dependencies going from the events of one to the events of the other.
pub open spec fn is_relation_of(rel: Relation, pattern: Pattern, b1: SubPatternBuffer, b2: SubPatternBuffer) -> bool {
    &&& rel.shared_entities@.len() == pattern.entities@.len()
    &&& forall|i: int| 0 <= i < pattern.entities@.len() ==> #[trigger] rel.shared_entities@[i] == (
        b1.node_id_list@.contains(i as usize) && b2.node_id_list@.contains(i as usize))
    &&& rel.event_orders@.map_values(|e: (usize, usize)| (e.0 as int, e.1 as int)) == cross_orders(
        dependencies_of(pattern.order.arcs()),
        b1.edge_id_list@,
        b2.edge_id_list@,
    )
}

/// The pattern entities that the events of `evs` touch.
pub open spec fn entity_ids_of(evs: Seq<&PatternEvent>) -> Set<usize> {
    Set::new(|x: usize| exists|k: int| 0 <= k < evs.len() && (#[trigger] evs[k].subject.id == x || evs[k].object.id == x))
}

/// The ids of the events of `evs`.
pub open spec fn event_ids_of(evs: Seq<&PatternEvent>) -> Set<usize> {
    Set::new(|x: usize| exists|k: int| 0 <= k < evs.len() && #[trigger] evs[k].id == x)
}

/// The ids of the pattern entities touched by `events`.
pub fn entity_set(events: &Vec<&PatternEvent>) -> (res: HashSet<usize>)
    ensures
        res@ == entity_ids_of(events@),
{
    let ghost evs = events@;
    let mut set: HashSet<usize> = HashSet::new();
    let mut k: usize = 0;
    while k < events.len()
        invariant
            evs == events@,
            k <= evs.len(),
            set@ == entity_ids_of(evs.take(k as int)),
        decreases evs.len() - k,
    {
        let event = events[k];
        set.insert(event.subject.id);
        set.insert(event.object.id);
        proof {
            let pre = evs.take(k as int);
            let next = evs.take(k + 1);
            assert forall|x: usize| set@.contains(x) <==> entity_ids_of(next).contains(x) by {
                if entity_ids_of(pre).contains(x) {
                    let j = choose|j: int| 0 <= j < pre.len() && (#[trigger] pre[j].subject.id == x || pre[j].object.id == x);
                    assert(next[j] == pre[j]);
                }
                if entity_ids_of(next).contains(x) {
                    let j = choose|j: int| 0 <= j < next.len() && (#[trigger] next[j].subject.id == x || next[j].object.id == x);
                    if j < k {
                        assert(pre[j] == evs[j]);
                        assert(next[j] == evs[j]);
                    }
                }
                if x == event.subject.id || x == event.object.id {
                    assert(next[k as int] == event);
                }
            }
            assert(set@ =~= entity_ids_of(next));
        }
        k += 1;
    }
    assert(evs.take(evs.len() as int) =~= evs);
    set
}

/// Adds every element of `src` to `dst`.
fn union_into(dst: &mut HashSet<usize>, src: &HashSet<usize>)
    ensures
        final(dst)@ == old(dst)@.union(src@),
{
    let ghost d0 = dst@;
    let ghost keys = IteratorSpec::remaining(&src.iter());
    for x in it: src.iter()
        invariant
            it.seq() == keys,
            keys.unref().to_set() == src@,
            forall|y: usize| #[trigger] dst@.contains(y) <==> (d0.contains(y) || exists|k: int|
                0 <= k < it.index() && *keys[k] == y),
    {
        dst.insert(*x);
    }
    assert forall|y: usize| dst@.contains(y) <==> d0.union(src@).contains(y) by {
        if src@.contains(y) {
            assert(keys.unref().to_set().contains(y));
            let k = choose|k: int| 0 <= k < keys.unref().len() && keys.unref()[k] == y;
            assert(*keys[k] == y);
        }
        if exists|k: int| 0 <= k < keys.len() && *keys[k] == y {
            let k = choose|k: int| 0 <= k < keys.len() && *keys[k] == y;
            assert(keys.unref()[k] == y);
            assert(keys.unref().to_set().contains(y));
        }
    }
    assert(dst@ =~= d0.union(src@));
}

/// A buffer that holds the matches of a sub-pattern, or of the union of two sibling buffers.
#[derive(Debug)]
pub struct SubPatternBuffer {
    /// Buffer id.
    pub id: usize,
    /// Ids of pattern entities (nodes) contained in this sub-pattern.
    pub node_id_list: HashSet<usize>,
    /// Ids of pattern events (edges) contained in this sub-pattern.
    pub edge_id_list: HashSet<usize>,
    /// The sub-pattern matches joined so far.
    pub buffer: Vec<SubPatternMatch>,
    /// The sub-pattern matches that arrived and are not joined yet.
    pub new_match_buffer: Vec<SubPatternMatch>,
    /// The order relations between this buffer and its sibling.
    pub relation: Relation,
    /// Number of entities in the overall pattern.
    pub max_num_entities: usize,
    /// Number of events in the overall pattern.
    pub max_num_events: usize,
}

impl SubPatternBuffer {
    /// An empty buffer for `sub_pattern`.
    pub fn new(id: usize, sub_pattern: &SubPattern, max_num_entities: usize, max_num_events: usize) -> (res:
        Self)
        ensures
            res.id == id,
            res.node_id_list@ == entity_ids_of(sub_pattern.events@),
            res.edge_id_list@ == event_ids_of(sub_pattern.events@),
            res.buffer@.len() == 0,
            res.new_match_buffer@.len() == 0,
            res.relation.shared_entities@.len() == 0,
            res.relation.event_orders@.len() == 0,
            res.max_num_entities == max_num_entities,
            res.max_num_events == max_num_events,
    {
        let ghost evs = sub_pattern.events@;
        let mut node_id_list: HashSet<usize> = HashSet::new();
        let mut edge_id_list: HashSet<usize> = HashSet::new();
        let mut k: usize = 0;
        while k < sub_pattern.events.len()
            invariant
                evs == sub_pattern.events@,
                k <= evs.len(),
                node_id_list@ == entity_ids_of(evs.take(k as int)),
                edge_id_list@ == event_ids_of(evs.take(k as int)),
            decreases evs.len() - k,
        {
            let edge = sub_pattern.events[k];
            node_id_list.insert(edge.subject.id);
            node_id_list.insert(edge.object.id);
            edge_id_list.insert(edge.id);
            proof {
                let pre = evs.take(k as int);
                let next = evs.take(k + 1);
                assert forall|x: usize| node_id_list@.contains(x) <==> entity_ids_of(next).contains(x) by {
                    if entity_ids_of(pre).contains(x) {
                        let j = choose|j: int| 0 <= j < pre.len() && (#[trigger] pre[j].subject.id == x || pre[j].object.id == x);
                        assert(next[j] == pre[j]);
                    }
                    if entity_ids_of(next).contains(x) {
                        let j = choose|j: int| 0 <= j < next.len() && (#[trigger] next[j].subject.id == x || next[j].object.id == x);
                        if j < k {
                            assert(pre[j] == next[j]);
                        }
                    }
                    if x == edge.subject.id || x == edge.object.id {
                        assert(next[k as int] == edge);
                    }
                }
                assert forall|x: usize| edge_id_list@.contains(x) <==> event_ids_of(next).contains(x) by {
                    if event_ids_of(pre).contains(x) {
                        let j = choose|j: int| 0 <= j < pre.len() && #[trigger] pre[j].id == x;
                        assert(next[j] == pre[j]);
                    }
                    if event_ids_of(next).contains(x) {
                        let j = choose|j: int| 0 <= j < next.len() && #[trigger] next[j].id == x;
                        if j < k {
                            assert(pre[j] == next[j]);
                        }
                    }
                    if x == edge.id {
                        assert(next[k as int] == edge);
                    }
                }
                assert(node_id_list@ =~= entity_ids_of(next));
                assert(edge_id_list@ =~= event_ids_of(next));
            }
            k += 1;
        }
        assert(evs.take(evs.len() as int) =~= evs);
        SubPatternBuffer {
            id,
            node_id_list,
            edge_id_list,
            buffer: Vec::new(),
            new_match_buffer: Vec::new(),
            relation: Relation::new(),
            max_num_entities,
            max_num_events,
        }
    }

    /// Precalculates the relation between two sibling buffers: the entities both hold, and the
    /// dependencies of the pattern that go from one buffer's events to the other's.
    pub fn generate_relations(pattern: &Pattern, sub_pattern_buffer1: &SubPatternBuffer, sub_pattern_buffer2: &SubPatternBuffer) -> (res:
        Relation)
        requires
            pattern.order.targets_are_events(),
        ensures
            is_relation_of(res, *pattern, *sub_pattern_buffer1, *sub_pattern_buffer2),
    {
        let n = pattern.entities.len();
        let mut shared_entities: Vec<bool> = Vec::new();
        let mut i: usize = 0;
        while i < n
            invariant
                n == pattern.entities@.len(),
                i <= n,
                shared_entities@.len() == i,
                forall|j: int| 0 <= j < i ==> #[trigger] shared_entities@[j] == (
                    sub_pattern_buffer1.node_id_list@.contains(j as usize)
                        && sub_pattern_buffer2.node_id_list@.contains(j as usize)),
            decreases n - i,
        {
            let shared = sub_pattern_buffer1.node_id_list.contains(&i) && sub_pattern_buffer2.node_id_list.contains(&i);
            shared_entities.push(shared);
            i += 1;
        }

        let deps = pattern.order.get_dependencies();
        let ghost d = deps@.map_values(|e: (usize, usize)| (e.0 as int, e.1 as int));
        let ghost e1 = sub_pattern_buffer1.edge_id_list@;
        let ghost e2 = sub_pattern_buffer2.edge_id_list@;
        let mut event_orders: Vec<(usize, usize)> = Vec::new();
        let mut k: usize = 0;
        while k < deps.len()
            invariant
                k <= deps@.len(),
                d == deps@.map_values(|e: (usize, usize)| (e.0 as int, e.1 as int)),
                e1 == sub_pattern_buffer1.edge_id_list@,
                e2 == sub_pattern_buffer2.edge_id_list@,
                event_orders@.map_values(|e: (usize, usize)| (e.0 as int, e.1 as int)) == cross_orders(
                    d.take(k as int),
                    e1,
                    e2,
                ),
            decreases deps@.len() - k,
        {
            let (src, tgt) = deps[k];
            proof {
                assert(d.take(k + 1).drop_last() =~= d.take(k as int));
                assert(d.take(k + 1).last() == (src as int, tgt as int));
            }
            if (sub_pattern_buffer1.edge_id_list.contains(&src) && sub_pattern_buffer2.edge_id_list.contains(&tgt))
                || (sub_pattern_buffer2.edge_id_list.contains(&src) && sub_pattern_buffer1.edge_id_list.contains(&tgt)) {
                let ghost before = event_orders@;
                event_orders.push((src, tgt));
                assert(event_orders@.map_values(|e: (usize, usize)| (e.0 as int, e.1 as int)) =~= before.map_values(
                    |e: (usize, usize)| (e.0 as int, e.1 as int),
                ).push((src as int, tgt as int)));
            }
            k += 1;
        }
        assert(d.take(d.len() as int) =~= d);
        Relation { shared_entities, event_orders }
    }

    /// A new empty buffer holding the entities and events of both buffers.
    pub fn merge_buffers(sub_pattern_buffer1: &SubPatternBuffer, sub_pattern_buffer2: &SubPatternBuffer, new_buffer_id: usize) -> (res:
        Self)
        ensures
            res.id == new_buffer_id,
            res.node_id_list@ == sub_pattern_buffer1.node_id_list@.union(sub_pattern_buffer2.node_id_list@),
            res.edge_id_list@ == sub_pattern_buffer1.edge_id_list@.union(sub_pattern_buffer2.edge_id_list@),
            res.buffer@.len() == 0,
            res.new_match_buffer@.len() == 0,
            res.relation.shared_entities@.len() == 0,
            res.relation.event_orders@.len() == 0,
            res.max_num_entities == sub_pattern_buffer1.max_num_entities,
            res.max_num_events == sub_pattern_buffer1.max_num_events,
    {
        let mut node_id_list: HashSet<usize> = HashSet::new();
        union_into(&mut node_id_list, &sub_pattern_buffer1.node_id_list);
        union_into(&mut node_id_list, &sub_pattern_buffer2.node_id_list);
        let mut edge_id_list: HashSet<usize> = HashSet::new();
        union_into(&mut edge_id_list, &sub_pattern_buffer1.edge_id_list);
        union_into(&mut edge_id_list, &sub_pattern_buffer2.edge_id_list);
        assert(node_id_list@ =~= sub_pattern_buffer1.node_id_list@.union(sub_pattern_buffer2.node_id_list@));
        assert(edge_id_list@ =~= sub_pattern_buffer1.edge_id_list@.union(sub_pattern_buffer2.edge_id_list@));
        SubPatternBuffer {
            id: new_buffer_id,
            node_id_list,
            edge_id_list,
            buffer: Vec::new(),
            new_match_buffer: Vec::new(),
            relation: Relation::new(),
            max_num_entities: sub_pattern_buffer1.max_num_entities,
            max_num_events: sub_pattern_buffer1.max_num_events,
        }
    }
}

} // verus!
