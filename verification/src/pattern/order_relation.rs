use vstd::prelude::*;
use petgraph::graph::{Graph, NodeIndex};
use petgraph::Direction;

verus! {

#[verifier::external_type_specification]
#[verifier::external_body]
#[verifier::reject_recursive_types(N)]
#[verifier::reject_recursive_types(E)]
#[verifier::reject_recursive_types(Ty)]
#[verifier::reject_recursive_types(Ix)]
pub struct ExGraph<N, E, Ty, Ix>(Graph<N, E, Ty, Ix>);

#[verifier::external_type_specification]
#[verifier::external_body]
pub struct ExDirected(petgraph::Directed);

/// The arcs of a dependency graph, as `(source, target)` node indices in the order they were added.
pub uninterp spec fn graph_arcs(g: Graph<usize, ()>) -> Seq<(int, int)>;

/// The number of nodes of a dependency graph.
pub uninterp spec fn graph_node_count(g: Graph<usize, ()>) -> nat;

/// The arcs given as `u32` pairs, read as integer pairs.
pub open spec fn arcs_of(edges: Seq<(u32, u32)>) -> Seq<(int, int)> {
    edges.map_values(|e: (u32, u32)| (e.0 as int, e.1 as int))
}

/// One more than the largest node index named by the arcs (0 when there are none).
pub open spec fn node_bound(arcs: Seq<(int, int)>) -> nat
    decreases arcs.len(),
{
    if arcs.len() == 0 {
        0
    } else {
        let rest = node_bound(arcs.drop_last());
        let e = arcs.last();
        let m = if e.0 > e.1 { e.0 } else { e.1 };
        if rest > m + 1 { rest } else { (m + 1) as nat }
    }
}

/// Targets of the arcs leaving `n`, most recently added arc first.
pub open spec fn successors(arcs: Seq<(int, int)>, n: int) -> Seq<int>
    decreases arcs.len(),
{
    if arcs.len() == 0 {
        Seq::empty()
    } else {
        let e = arcs.last();
        let head = if e.0 == n { seq![e.1] } else { Seq::empty() };
        head + successors(arcs.drop_last(), n)
    }
}

/// Sources of the arcs entering `n`, most recently added arc first.
pub open spec fn predecessors(arcs: Seq<(int, int)>, n: int) -> Seq<int>
    decreases arcs.len(),
{
    if arcs.len() == 0 {
        Seq::empty()
    } else {
        let e = arcs.last();
        let head = if e.1 == n { seq![e.0] } else { Seq::empty() };
        head + predecessors(arcs.drop_last(), n)
    }
}

/// `path` is a walk along the arcs.
pub open spec fn is_walk(arcs: Seq<(int, int)>, path: Seq<int>) -> bool {
    forall|k: int| 0 <= k < path.len() - 1 ==> #[trigger] arcs.contains((path[k], path[k + 1]))
}

/// The arcs contain a cycle: a walk of at least one arc that ends where it starts.
pub open spec fn has_cycle(arcs: Seq<(int, int)>) -> bool {
    exists|path: Seq<int>| path.len() >= 2 && path[0] == path.last() && #[trigger] is_walk(arcs, path)
}

/// Builds a graph from a list of arcs; nodes are created up to the largest index named.
///
/// Calls `petgraph::graph::Graph::from_edges`. The contract claims that the graph holds
/// exactly the given arcs, in order, and one node per index up to the largest one named.
#[verifier::external_body]
fn graph_from_edges(edges: &[(u32, u32)]) -> (g: Graph<usize, ()>)
    requires
        edges@.len() < u32::MAX,
        forall|i: int| 0 <= i < edges@.len() ==> edges@[i].0 < u32::MAX && edges@[i].1 < u32::MAX,
    ensures
        graph_arcs(g) == arcs_of(edges@),
        graph_node_count(g) == node_bound(arcs_of(edges@)),
{
    Graph::from_edges(edges)
}

/// `v` holds the integers of `s`, each as often, in some order.
pub open spec fn same_items(v: Seq<int>, s: Seq<int>) -> bool {
    v.to_multiset() == s.to_multiset()
}

/// Calls `petgraph::graph::Graph::neighbors_directed` with `Direction::Outgoing`, which walks
/// the arcs that leave `node` and yields the target of each (nothing for a node that does
/// not exist). The contract claims the targets, each as often as an arc leads there; it
/// claims no order, since removing arcs reorders the lists that the walk follows.
#[verifier::external_body]
fn graph_successors(g: &Graph<usize, ()>, node: usize) -> (res: Vec<usize>)
    requires
        node < 0x1_0000_0000,
    ensures
        same_items(res@.map_values(|x: usize| x as int), successors(graph_arcs(*g), node as int)),
{
    g.neighbors_directed(NodeIndex::new(node), Direction::Outgoing).map(|x| x.index()).collect()
}

/// Calls `petgraph::graph::Graph::neighbors_directed` with `Direction::Incoming`, which walks
/// the arcs that enter `node` and yields the source of each (nothing for a node that does not
/// exist). The contract claims the sources, each as often as an arc comes from there; it
/// claims no order.
#[verifier::external_body]
fn graph_predecessors(g: &Graph<usize, ()>, node: usize) -> (res: Vec<usize>)
    requires
        node < 0x1_0000_0000,
    ensures
        same_items(res@.map_values(|x: usize| x as int), predecessors(graph_arcs(*g), node as int)),
{
    g.neighbors_directed(NodeIndex::new(node), Direction::Incoming).map(|x| x.index()).collect()
}

/// Calls `petgraph::graph::Graph::raw_edges` and reads each arc's source and target.
#[verifier::external_body]
fn graph_arc_list(g: &Graph<usize, ()>) -> (res: Vec<(usize, usize)>)
    ensures
        res@.map_values(|e: (usize, usize)| (e.0 as int, e.1 as int)) == graph_arcs(*g),
{
    g.raw_edges().iter().map(|e| (e.source().index(), e.target().index())).collect()
}

/// Calls `petgraph::algo::is_cyclic_directed`, which reports whether a directed graph has a
/// cycle.
#[verifier::external_body]
fn graph_is_cyclic(g: &Graph<usize, ()>) -> (res: bool)
    ensures
        res == has_cycle(graph_arcs(*g)),
{
    petgraph::algo::is_cyclic_directed(g)
}

/// `path` is a walk along the arcs from `a` to `b`.
pub open spec fn walk_between(arcs: Seq<(int, int)>, path: Seq<int>, a: int, b: int) -> bool {
    path.len() >= 1 && path[0] == a && path.last() == b && is_walk(arcs, path)
}

/// `d` is the number of arcs of a shortest walk along the arcs from `a` to `b` (0 from a node
/// to itself), or `i32::MAX` when no walk leads there.
pub open spec fn shortest_distance(arcs: Seq<(int, int)>, a: int, b: int, d: i32) -> bool {
    if exists|p: Seq<int>| #[trigger] walk_between(arcs, p, a, b) {
        &&& exists|p: Seq<int>| #[trigger] walk_between(arcs, p, a, b) && p.len() - 1 == d
        &&& forall|p: Seq<int>| #[trigger] walk_between(arcs, p, a, b) ==> p.len() - 1 >= d
    } else {
        d == i32::MAX
    }
}

/// What one arc counts for when measuring distances in a dependency graph.
fn arc_cost<T>(_arc: T) -> (res: i32)
    ensures
        res == 1,
{
    1
}

/// The distances between every two nodes of a dependency graph, one row per node.
///
/// Calls `petgraph::algo::floyd_warshall` with [arc_cost], 1, on every arc, whose source keeps, for
/// each pair of nodes, the length of a shortest walk, or `i32::MAX` when there is none, and
/// reads out the table. The contract claims the shape of the table, and these lengths when
/// the graph has fewer than `i32::MAX` nodes; of larger graphs it claims nothing more.
#[verifier::external_body]
fn all_distances(g: &Graph<usize, ()>) -> (res: Vec<Vec<i32>>)
    ensures
        res@.len() == graph_node_count(*g),
        forall|a: int| 0 <= a < res@.len() ==> (#[trigger] res@[a])@.len() == graph_node_count(*g),
        graph_node_count(*g) < i32::MAX ==> forall|a: int, b: int|
            0 <= a < res@.len() && 0 <= b < res@.len() ==> shortest_distance(graph_arcs(*g), a, b, #[trigger] res@[a]@[b]),
{
    let table = petgraph::algo::floyd_warshall(g, |e| arc_cost(e)).ok().unwrap();
    let n = g.node_count();
    (0..n).map(|a| (0..n).map(|b| table[&(NodeIndex::new(a), NodeIndex::new(b))]).collect()).collect()
}

/// The dependencies between pattern events. Node 0 is a virtual root; pattern event `i` is
/// node `i + 1`, and an arc `u -> v` means that `u` must occur before `v`.
pub struct OrderRelation {
    pub graph: Graph<usize, ()>,
    /// The distance between every two nodes of the graph.
    pub distances_table: Vec<Vec<i32>>,
}

/// A relation on the graph `graph`, with its distance table.
fn with_distances(graph: Graph<usize, ()>) -> (res: OrderRelation)
    ensures
        res.graph == graph,
        res.distances_ok(),
{
    let distances_table = all_distances(&graph);
    OrderRelation { graph, distances_table }
}

/// Subtracts one from every node index.
pub open spec fn shift_down(s: Seq<int>) -> Seq<int> {
    s.map_values(|x: int| x - 1)
}

/// Drops the root (0) and subtracts one from every other node index.
pub open spec fn events_of(s: Seq<int>) -> Seq<int>
    decreases s.len(),
{
    if s.len() == 0 {
        Seq::empty()
    } else {
        let rest = events_of(s.drop_last());
        if s.last() > 0 { rest.push(s.last() - 1) } else { rest }
    }
}

impl OrderRelation {
    /// The distance table holds the distance between every two nodes of the graph.
    pub closed spec fn distances_ok(&self) -> bool {
        let n = graph_node_count(self.graph);
        &&& self.distances_table@.len() == n
        &&& forall|a: int| 0 <= a < n ==> (#[trigger] self.distances_table@[a])@.len() == n
        &&& n < i32::MAX ==> forall|a: int, b: int|
            0 <= a < n && 0 <= b < n ==> shortest_distance(self.arcs(), a, b, #[trigger] self.distances_table@[a]@[b])
    }

    /// The number of arcs of a shortest chain of dependencies from pattern event `eid1` to
    /// pattern event `eid2`, or `i32::MAX` when there is none.
    pub fn get_distance(&self, eid1: &usize, eid2: &usize) -> (res: i32)
        requires
            self.distances_ok(),
            *eid1 + 1 < graph_node_count(self.graph),
            *eid2 + 1 < graph_node_count(self.graph),
        ensures
            graph_node_count(self.graph) < i32::MAX ==> shortest_distance(self.arcs(), *eid1 + 1, *eid2 + 1, res),
    {
        let n = self.distances_table.len();
        assert(*eid1 + 1 < n && *eid2 + 1 < n);
        let row = &self.distances_table[*eid1 + 1];
        row[*eid2 + 1]
    }

    /// The arcs of the dependency graph.
    pub open spec fn arcs(&self) -> Seq<(int, int)> {
        graph_arcs(self.graph)
    }

    /// The root is never the target of an arc, so every target names a pattern event.
    pub open spec fn targets_are_events(&self) -> bool {
        forall|k: int| 0 <= k < self.arcs().len() ==> #[trigger] self.arcs()[k].1 >= 1
    }

    /// The ids of pattern events that must appear **before** the given pattern event.
    pub fn get_previous(&self, eid: usize) -> (res: Vec<usize>)
        requires
            eid + 1 < 0x1_0000_0000,
        ensures
            exists|p: Seq<int>| #[trigger] same_items(p, predecessors(self.arcs(), eid + 1))
                && res@.map_values(|x: usize| x as int) == events_of(p),
    {
        let preds = graph_predecessors(&self.graph, eid + 1);
        let mut res: Vec<usize> = Vec::new();
        let mut i: usize = 0;
        let ghost p = preds@.map_values(|x: usize| x as int);
        while i < preds.len()
            invariant
                0 <= i <= preds@.len(),
                p == preds@.map_values(|x: usize| x as int),
                res@.map_values(|x: usize| x as int) == events_of(p.take(i as int)),
            decreases preds@.len() - i,
        {
            let x = preds[i];
            let ghost old_res = res@;
            proof {
                assert(p.take(i + 1).drop_last() =~= p.take(i as int));
                assert(p[i as int] == x as int);
            }
            if x > 0 {
                res.push(x - 1);
            }
            proof {
                if x > 0 {
                    assert(res@ == old_res.push((x - 1) as usize));
                    assert(res@.map_values(|x: usize| x as int) =~= old_res.map_values(
                        |x: usize| x as int,
                    ).push(x - 1));
                }
                assert(res@.map_values(|x: usize| x as int) =~= events_of(p.take(i + 1)));
            }
            i += 1;
        }
        proof {
            assert(p.take(preds@.len() as int) =~= p);
            assert(same_items(p, predecessors(self.arcs(), eid + 1)));
        }
        res
    }

    /// The ids of pattern events that must appear **after** the given pattern event.
    pub fn get_next(&self, eid: usize) -> (res: Vec<usize>)
        requires
            eid + 1 < 0x1_0000_0000,
            self.targets_are_events(),
        ensures
            exists|p: Seq<int>| #[trigger] same_items(p, successors(self.arcs(), eid + 1))
                && res@.map_values(|x: usize| x as int) == shift_down(p),
    {
        let succs = graph_successors(&self.graph, eid + 1);
        proof {
            lemma_successor_targets(self.arcs(), eid + 1);
            lemma_positive_entries(succs@, successors(self.arcs(), eid + 1));
        }
        shift_all_down(&succs)
    }

    /// The ids of pattern events that have no dependency (children of the root).
    pub fn get_roots(&self) -> (res: Vec<usize>)
        requires
            self.targets_are_events(),
        ensures
            exists|p: Seq<int>| #[trigger] same_items(p, successors(self.arcs(), 0))
                && res@.map_values(|x: usize| x as int) == shift_down(p),
    {
        let succs = graph_successors(&self.graph, 0);
        proof {
            lemma_successor_targets(self.arcs(), 0);
            lemma_positive_entries(succs@, successors(self.arcs(), 0));
        }
        shift_all_down(&succs)
    }

    /// Pairs `(a, b)` of pattern events where `a` must occur before `b`, in the order of the arcs.
    pub fn get_dependencies(&self) -> (res: Vec<(usize, usize)>)
        requires
            self.targets_are_events(),
        ensures
            res@.map_values(|e: (usize, usize)| (e.0 as int, e.1 as int)) == dependencies_of(
                self.arcs(),
            ),
    {
        let arcs = graph_arc_list(&self.graph);
        let ghost a = arcs@.map_values(|e: (usize, usize)| (e.0 as int, e.1 as int));
        let mut res: Vec<(usize, usize)> = Vec::new();
        let mut i: usize = 0;
        while i < arcs.len()
            invariant
                0 <= i <= arcs@.len(),
                a == arcs@.map_values(|e: (usize, usize)| (e.0 as int, e.1 as int)),
                a == self.arcs(),
                self.targets_are_events(),
                res@.map_values(|e: (usize, usize)| (e.0 as int, e.1 as int)) == dependencies_of(
                    a.take(i as int),
                ),
            decreases arcs@.len() - i,
        {
            let (src, tgt) = arcs[i];
            proof {
                assert(a[i as int].1 >= 1);
                assert(a.take(i + 1) =~= a.take(i as int).push(a[i as int]));
                assert(a.take(i + 1).drop_last() =~= a.take(i as int));
            }
            if src > 0 {
                res.push((src - 1, tgt - 1));
            }
            proof {
                assert(res@.map_values(|e: (usize, usize)| (e.0 as int, e.1 as int))
                    =~= dependencies_of(a.take(i + 1)));
            }
            i += 1;
        }
        proof {
            assert(a.take(arcs@.len() as int) =~= a);
        }
        res
    }

    /// Returns `true` when the dependencies have no cycle.
    pub fn is_valid(&self) -> (res: bool)
        ensures
            res == !has_cycle(self.arcs()),
    {
        !graph_is_cyclic(&self.graph)
    }

    /// Builds the relation from rules `(a, b)` meaning event `a` precedes event `b`, and from the
    /// list of events that depend on nothing.
    pub fn from_order_rules(order_rules: &[(u32, u32)], roots: &[u32]) -> (res: Self)
        requires
            order_rules@.len() + roots@.len() < u32::MAX,
            forall|i: int|
                0 <= i < order_rules@.len() ==> order_rules@[i].0 + 1 < u32::MAX
                    && order_rules@[i].1 + 1 < u32::MAX,
            forall|i: int| 0 <= i < roots@.len() ==> roots@[i] + 1 < u32::MAX,
        ensures
            res.arcs() == rules_arcs(order_rules@) + root_arcs(roots@),
            res.distances_ok(),
            graph_node_count(res.graph) == node_bound(res.arcs()),
    {
        let mut edges: Vec<(u32, u32)> = Vec::new();
        let mut i: usize = 0;
        while i < order_rules.len()
            invariant
                0 <= i <= order_rules@.len(),
                forall|k: int|
                    0 <= k < order_rules@.len() ==> order_rules@[k].0 + 1 < u32::MAX
                        && order_rules@[k].1 + 1 < u32::MAX,
                arcs_of(edges@) == rules_arcs(order_rules@.take(i as int)),
                edges@.len() == i,
                forall|k: int| 0 <= k < edges@.len() ==> edges@[k].0 < u32::MAX && edges@[k].1 < u32::MAX,
            decreases order_rules@.len() - i,
        {
            let (a, b) = order_rules[i];
            let ghost old_edges = edges@;
            edges.push((a + 1, b + 1));
            proof {
                assert(order_rules@.take(i + 1) =~= order_rules@.take(i as int).push(order_rules@[i as int]));
                assert(arcs_of(edges@) =~= arcs_of(old_edges).push((a + 1, b + 1)));
                assert(rules_arcs(order_rules@.take(i + 1)) =~= rules_arcs(order_rules@.take(i as int)).push((a + 1, b + 1)));
            }
            i += 1;
        }
        let mut j: usize = 0;
        while j < roots.len()
            invariant
                0 <= j <= roots@.len(),
                order_rules@.len() + roots@.len() < u32::MAX,
                forall|k: int| 0 <= k < roots@.len() ==> roots@[k] + 1 < u32::MAX,
                arcs_of(edges@) == rules_arcs(order_rules@) + root_arcs(roots@.take(j as int)),
                edges@.len() == order_rules@.len() + j,
                forall|k: int| 0 <= k < edges@.len() ==> edges@[k].0 < u32::MAX && edges@[k].1 < u32::MAX,
            decreases roots@.len() - j,
        {
            let r = roots[j];
            let ghost old_edges = edges@;
            edges.push((0, r + 1));
            proof {
                assert(roots@.take(j + 1) =~= roots@.take(j as int).push(roots@[j as int]));
                assert(arcs_of(edges@) =~= arcs_of(old_edges).push((0int, r + 1)));
                assert(root_arcs(roots@.take(j + 1)) =~= root_arcs(roots@.take(j as int)).push((0int, r + 1)));
                assert(arcs_of(edges@) =~= rules_arcs(order_rules@) + root_arcs(roots@.take(j + 1)));
            }
            j += 1;
        }
        proof {
            assert(order_rules@.take(order_rules@.len() as int) =~= order_rules@);
            assert(roots@.take(roots@.len() as int) =~= roots@);
        }
        with_distances(graph_from_edges(edges.as_slice()))
    }

    /// Builds the relation from arcs between graph nodes (root is node 0, event `i` is node `i + 1`).
    pub fn from_arcs(arcs: &[(u32, u32)]) -> (res: Self)
        requires
            arcs@.len() < u32::MAX,
            forall|i: int| 0 <= i < arcs@.len() ==> arcs@[i].0 < u32::MAX && arcs@[i].1 < u32::MAX,
        ensures
            res.arcs() == arcs_of(arcs@),
            res.distances_ok(),
            graph_node_count(res.graph) == node_bound(res.arcs()),
    {
        with_distances(graph_from_edges(arcs))
    }
}

/// The arcs `(a + 1, b + 1)` for the order rules.
pub open spec fn rules_arcs(rules: Seq<(u32, u32)>) -> Seq<(int, int)> {
    rules.map_values(|r: (u32, u32)| (r.0 + 1, r.1 + 1))
}

/// The arcs `(0, r + 1)` from the root for every root event.
pub open spec fn root_arcs(roots: Seq<u32>) -> Seq<(int, int)> {
    roots.map_values(|r: u32| (0int, r + 1))
}

/// Dependencies between pattern events: the arcs that do not leave the root, shifted down by one.
pub open spec fn dependencies_of(arcs: Seq<(int, int)>) -> Seq<(int, int)>
    decreases arcs.len(),
{
    if arcs.len() == 0 {
        Seq::empty()
    } else {
        let e = arcs.last();
        let rest = dependencies_of(arcs.drop_last());
        if e.0 > 0 { rest.push((e.0 - 1, e.1 - 1)) } else { rest }
    }
}

proof fn lemma_successor_targets(arcs: Seq<(int, int)>, n: int)
    requires
        forall|k: int| 0 <= k < arcs.len() ==> #[trigger] arcs[k].1 >= 1,
    ensures
        forall|k: int| 0 <= k < successors(arcs, n).len() ==> #[trigger] successors(arcs, n)[k] >= 1,
    decreases arcs.len(),
{
    if arcs.len() > 0 {
        let d = arcs.drop_last();
        assert forall|k: int| 0 <= k < d.len() implies #[trigger] d[k].1 >= 1 by {
            assert(d[k] == arcs[k]);
        }
        lemma_successor_targets(d, n);
        let e = arcs.last();
        assert(arcs[arcs.len() - 1].1 >= 1);
        let h = if e.0 == n { seq![e.1] } else { Seq::<int>::empty() };
        let r = successors(d, n);
        assert(successors(arcs, n) == h + r);
        assert forall|k: int| 0 <= k < (h + r).len() implies #[trigger] (h + r)[k] >= 1 by {
            if k < h.len() {
                assert((h + r)[k] == e.1);
            } else {
                assert((h + r)[k] == r[k - h.len()]);
            }
        }
    }
}

proof fn lemma_positive_entries(v: Seq<usize>, s: Seq<int>)
    requires
        same_items(v.map_values(|x: usize| x as int), s),
        forall|k: int| 0 <= k < s.len() ==> #[trigger] s[k] >= 1,
    ensures
        forall|k: int| 0 <= k < v.len() ==> v[k] >= 1,
{
    let m = v.map_values(|x: usize| x as int);
    assert forall|k: int| 0 <= k < v.len() implies v[k] >= 1 by {
        assert(m[k] == v[k] as int);
        m.to_multiset_ensures();
        s.to_multiset_ensures();
        assert(m.contains(m[k]));
        assert(m.to_multiset().count(m[k]) > 0);
        assert(s.contains(m[k]));
        let j = choose|j: int| 0 <= j < s.len() && s[j] == m[k];
        assert(s[j] >= 1);
    }
}

/// Subtracts one from every (positive) entry.
fn shift_all_down(v: &Vec<usize>) -> (res: Vec<usize>)
    requires
        forall|k: int| 0 <= k < v@.len() ==> v@[k] >= 1,
    ensures
        res@.map_values(|x: usize| x as int) == shift_down(v@.map_values(|x: usize| x as int)),
{
    let mut res: Vec<usize> = Vec::new();
    let mut i: usize = 0;
    while i < v.len()
        invariant
            0 <= i <= v@.len(),
            forall|k: int| 0 <= k < v@.len() ==> v@[k] >= 1,
            res@.len() == i,
            forall|k: int| 0 <= k < i ==> res@[k] == v@[k] - 1,
        decreases v@.len() - i,
    {
        res.push(v[i] - 1);
        i += 1;
    }
    assert(res@.map_values(|x: usize| x as int) =~= shift_down(v@.map_values(|x: usize| x as int)));
    res
}

} // verus!
