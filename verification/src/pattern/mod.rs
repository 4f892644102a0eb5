pub mod order_relation;
pub mod parser;
pub mod sub_pattern;

use vstd::prelude::*;
use order_relation::{has_cycle, is_walk, root_arcs, OrderRelation};

pub use sub_pattern::{decompose, SubPattern};

verus! {

/// An entity (node) of a behavioral pattern.
#[derive(Debug)]
pub struct PatternEntity {
    pub id: usize,
    pub signature: String,
}

impl Clone for PatternEntity {
    fn clone(&self) -> (res: Self)
        ensures
            res == *self,
    {
        PatternEntity { id: self.id, signature: self.signature.clone() }
    }
}

impl PatternEntity {
    /// Two entities are equal when their ids and signatures are equal.
    pub open spec fn same_as(self, other: PatternEntity) -> bool {
        self.id == other.id && self.signature@ == other.signature@
    }
}

impl PartialEq for PatternEntity {
    fn eq(&self, other: &Self) -> (res: bool) {
        self.id == other.id && self.signature == other.signature
    }
}

impl vstd::std_specs::cmp::PartialEqSpecImpl for PatternEntity {
    open spec fn obeys_eq_spec() -> bool {
        true
    }

    open spec fn eq_spec(&self, other: &PatternEntity) -> bool {
        self.same_as(*other)
    }
}

/// The kind of a pattern event.
#[derive(Debug, Clone, Copy, PartialEq, Eq, Structural)]
pub enum PatternEventType {
    Default,
    Frequency(u32),
    Flow,
}

/// An event (arc) of a behavioral pattern.
#[derive(Debug, Clone)]
pub struct PatternEvent {
    pub id: usize,
    pub event_type: PatternEventType,
    pub signature: String,
    pub subject: PatternEntity,
    pub object: PatternEntity,
}

impl PatternEvent {
    /// Two events are equal when all their fields are.
    pub open spec fn same_as(self, other: PatternEvent) -> bool {
        &&& self.id == other.id
        &&& self.event_type == other.event_type
        &&& self.signature@ == other.signature@
        &&& self.subject.same_as(other.subject)
        &&& self.object.same_as(other.object)
    }
}

impl PartialEq for PatternEvent {
    fn eq(&self, other: &Self) -> (res: bool) {
        self.id == other.id && self.event_type == other.event_type && self.signature == other.signature
            && self.subject == other.subject && self.object == other.object
    }
}

impl vstd::std_specs::cmp::PartialEqSpecImpl for PatternEvent {
    open spec fn obeys_eq_spec() -> bool {
        true
    }

    open spec fn eq_spec(&self, other: &PatternEvent) -> bool {
        self.same_as(*other)
    }
}

/// A behavioral pattern: its entities, its events and the order relation between the events.
pub struct Pattern {
    pub use_regex: bool,
    pub entities: Vec<PatternEntity>,
    pub events: Vec<PatternEvent>,
    pub order: OrderRelation,
}

impl Pattern {
    /// The events are numbered `0..n` by their position, and the dependency graph relates
    /// the root (node 0) and the events (node `i + 1` for event `i`) without cycles.
    pub open spec fn well_formed(&self) -> bool {
        &&& self.events@.len() + 2 < u32::MAX
        &&& forall|k: int| 0 <= k < self.events@.len() ==> #[trigger] self.events@[k].id == k
        &&& self.order.targets_are_events()
        &&& forall|k: int|
            #![trigger self.order.arcs()[k]]
            0 <= k < self.order.arcs().len() ==> 0 <= self.order.arcs()[k].0 <= self.events@.len()
                && self.order.arcs()[k].1 <= self.events@.len()
        &&& !has_cycle(self.order.arcs())
        &&& self.order.distances_ok()
    }
}

/// Arcs that all leave the root (node 0) for other nodes form no cycle.
proof fn lemma_root_arcs_acyclic(arcs: Seq<(int, int)>)
    requires
        forall|k: int| 0 <= k < arcs.len() ==> (#[trigger] arcs[k]).0 == 0 && arcs[k].1 >= 1,
    ensures
        !has_cycle(arcs),
{
    if has_cycle(arcs) {
        let path = choose|path: Seq<int>| path.len() >= 2 && path[0] == path.last() && #[trigger] is_walk(arcs, path);
        let z: int = 0;
        assert(arcs.contains((path[z], path[z + 1])));
        let a = choose|a: int| 0 <= a < arcs.len() && arcs[a] == (path[z], path[z + 1]);
        assert(path[1] >= 1);
        if path.len() == 2 {
            assert(path[0] == path[1]);
        } else {
            let o: int = 1;
            assert(arcs.contains((path[o], path[o + 1])));
            let b = choose|b: int| 0 <= b < arcs.len() && arcs[b] == (path[o], path[o + 1]);
        }
    }
}

impl Pattern {
    /// Builds a pattern from a graph: vertex `k` becomes entity `k` with its signature, and
    /// edge `k`, a triple `(u, v, sig)` of vertex indices and signature, becomes event `k`.
    /// No event depends on another.
    pub fn from_graph(vertices: &[&str], edges: &[(usize, usize, &str)], use_regex: bool) -> (res: Self)
        requires
            edges@.len() + 2 < u32::MAX,
            forall|k: int| 0 <= k < edges@.len() ==> #[trigger] edges@[k].0 < vertices@.len() && edges@[k].1 < vertices@.len(),
        ensures
            res.use_regex == use_regex,
            res.entities@.len() == vertices@.len(),
            forall|k: int| 0 <= k < vertices@.len() ==> #[trigger] res.entities@[k].id == k && res.entities@[k].signature@ == vertices@[k]@,
            res.events@.len() == edges@.len(),
            forall|k: int|
                0 <= k < edges@.len() ==> {
                    &&& (#[trigger] res.events@[k]).id == k
                    &&& res.events@[k].event_type == PatternEventType::Default
                    &&& res.events@[k].signature@ == edges@[k].2@
                    &&& res.events@[k].subject == res.entities@[edges@[k].0 as int]
                    &&& res.events@[k].object == res.entities@[edges@[k].1 as int]
                },
            res.order.arcs() == root_arcs(Seq::new(edges@.len(), |k: int| k as u32)),
            res.well_formed(),
    {
        let mut entities: Vec<PatternEntity> = Vec::new();
        let mut id: usize = 0;
        while id < vertices.len()
            invariant
                id <= vertices@.len(),
                entities@.len() == id,
                forall|k: int| 0 <= k < id ==> #[trigger] entities@[k].id == k && entities@[k].signature@ == vertices@[k]@,
            decreases vertices@.len() - id,
        {
            entities.push(PatternEntity { id, signature: String::from_str(vertices[id]) });
            id += 1;
        }
        let mut events: Vec<PatternEvent> = Vec::new();
        let mut roots: Vec<u32> = Vec::new();
        let mut k: usize = 0;
        while k < edges.len()
            invariant
                edges@.len() + 2 < u32::MAX,
                forall|t: int| 0 <= t < edges@.len() ==> #[trigger] edges@[t].0 < vertices@.len() && edges@[t].1 < vertices@.len(),
                entities@.len() == vertices@.len(),
                k <= edges@.len(),
                events@.len() == k,
                roots@ == Seq::new(k as nat, |t: int| t as u32),
                forall|t: int|
                    0 <= t < k ==> {
                        &&& (#[trigger] events@[t]).id == t
                        &&& events@[t].event_type == PatternEventType::Default
                        &&& events@[t].signature@ == edges@[t].2@
                        &&& events@[t].subject == entities@[edges@[t].0 as int]
                        &&& events@[t].object == entities@[edges@[t].1 as int]
                    },
            decreases edges@.len() - k,
        {
            let edge = edges[k];
            assert(edges@[k as int] == edge);
            roots.push(k as u32);
            events.push(
                PatternEvent {
                    id: k,
                    event_type: PatternEventType::Default,
                    signature: String::from_str(edge.2),
                    subject: entities[edge.0].clone(),
                    object: entities[edge.1].clone(),
                },
            );
            assert(roots@ =~= Seq::new((k + 1) as nat, |t: int| t as u32));
            k += 1;
        }
        let no_rules: Vec<(u32, u32)> = Vec::new();
        let order = OrderRelation::from_order_rules(no_rules.as_slice(), roots.as_slice());
        proof {
            let arcs = order.arcs();
            assert(arcs =~= root_arcs(roots@));
            assert forall|t: int| 0 <= t < arcs.len() implies (#[trigger] arcs[t]).0 == 0 && arcs[t].1 >= 1 by {
                assert(arcs[t] == (0int, roots@[t] + 1));
            }
            lemma_root_arcs_acyclic(arcs);
            assert forall|t: int| #![trigger order.arcs()[t]] 0 <= t < order.arcs().len() implies 0 <= order.arcs()[t].0
                <= events@.len() && order.arcs()[t].1 <= events@.len() by {
                assert(arcs[t] == (0int, roots@[t] + 1));
            }
        }
        Pattern { use_regex, entities, events, order }
    }
}

} // verus!
