use vstd::prelude::*;
use std::collections::HashMap;
use crate::process_layers::composition_layer::flow_tracer::keys_of;

verus! {

broadcast use vstd::std_specs::hash::group_hash_axioms;

/// A node of a reach set: it reached the root through `parent`, last at `update_time`.
#[derive(Clone, Copy, Debug, PartialEq, Eq, Structural)]
pub struct Node {
    pub id: u64,
    pub parent: u64,
    pub update_time: u64,
}

/// What a reach set is: its nodes by id, its root, and the nodes its last change updated.
pub type SetView = (Map<u64, Node>, Node, Set<u64>);

/// A node `n` of another set is taken into a set with root `root_id`: it is within the bound
/// and is not that root.
pub open spec fn taken(n: Node, root_id: u64, bound: u64) -> bool {
    n.update_time >= bound && n.id != root_id
}

/// `ours` after taking the node `n`: a newer `n` replaces the parent and time of the node
/// with its id, an unknown one is added.
pub open spec fn took(ours: Map<u64, Node>, n: Node) -> Map<u64, Node> {
    if ours.contains_key(n.id) {
        if ours[n.id].update_time < n.update_time {
            ours.insert(n.id, Node { id: ours[n.id].id, parent: n.parent, update_time: n.update_time })
        } else {
            ours
        }
    } else {
        ours.insert(n.id, n)
    }
}

/// The ids of the nodes of `theirs` that a set with root `root_id` takes.
pub open spec fn taken_ids(theirs: Map<u64, Node>, root_id: u64, bound: u64) -> Set<u64> {
    Set::new(|k: u64| theirs.contains_key(k) && taken(theirs[k], root_id, bound))
}

/// `ours` after taking every node of `theirs` that a set with root `root_id` takes.
pub open spec fn took_all(ours: Map<u64, Node>, theirs: Map<u64, Node>, root_id: u64, bound: u64) -> Map<u64, Node> {
    Map::new(
        |k: u64| ours.contains_key(k) || taken_ids(theirs, root_id, bound).contains(k),
        |k: u64|
            if taken_ids(theirs, root_id, bound).contains(k) {
                took(ours, theirs[k])[k]
            } else {
                ours[k]
            },
    )
}

/// The set `s` after its root `v` is reached from the root of `o` at `cur`: the root of `o`
/// becomes a child of `v` at `cur`, and, unless `o` is older than the bound, `s` takes the
/// nodes of `o`. The nodes taken are the ones updated.
pub open spec fn connected(s: SetView, o: SetView, cur: u64, bound: u64) -> SetView {
    let root_id = s.1.id;
    let u = o.1.id;
    if u == root_id {
        s
    } else {
        let link = if s.0.contains_key(u) {
            Node { id: s.0[u].id, parent: root_id, update_time: cur }
        } else {
            Node { id: u, parent: root_id, update_time: cur }
        };
        let nodes = s.0.insert(u, link);
        let root = Node { update_time: cur, ..s.1 };
        if o.1.update_time < bound {
            (nodes, root, Set::empty())
        } else {
            (took_all(nodes, o.0, root_id, bound), root, taken_ids(o.0, root_id, bound))
        }
    }
}

/// The set `s` after the later changes of `o` reach it: only when `s` holds the root of `o`
/// with the same time, `s` takes the nodes of `o` and they are the ones updated.
pub open spec fn applied(s: SetView, o: SetView, bound: u64) -> SetView {
    let u = o.1.id;
    if s.0.contains_key(u) && s.0[u].update_time == o.1.update_time {
        (took_all(s.0, o.0, s.1.id, bound), s.1, taken_ids(o.0, s.1.id, bound))
    } else {
        s
    }
}

/// Whether the set `s` holds `id`: its root or one of its nodes.
pub open spec fn holds(s: SetView, id: u64) -> bool {
    id == s.1.id || s.0.contains_key(id)
}

/// The walk from `cur` along the parents to the root `root_id`, when it gets there in at most
/// `fuel` steps through nodes of `nodes`.
pub open spec fn parent_walk(nodes: Map<u64, Node>, root_id: u64, cur: u64, fuel: nat) -> Option<Seq<u64>>
    decreases fuel,
{
    if cur == root_id {
        Some(seq![root_id])
    } else if fuel == 0 || !nodes.contains_key(cur) {
        None
    } else {
        match parent_walk(nodes, root_id, nodes[cur].parent, (fuel - 1) as nat) {
            Some(rest) => Some(seq![cur] + rest),
            None => None,
        }
    }
}

/// Following the parents from `src` leads to the root through nodes of `nodes`.
pub open spec fn reaches_root(nodes: Map<u64, Node>, root_id: u64, src: u64) -> bool {
    exists|fuel: nat| #[trigger] parent_walk(nodes, root_id, src, fuel) is Some
}

/// The walk from `src` along the parents to the root.
pub open spec fn root_walk(nodes: Map<u64, Node>, root_id: u64, src: u64) -> Seq<u64> {
    parent_walk(nodes, root_id, src, choose|fuel: nat| #[trigger] parent_walk(nodes, root_id, src, fuel) is Some)->0
}

/// The node that a walk visits after `c` in the set `s`, if any.
pub open spec fn walk_next(s: SetView, c: Node) -> Option<Node> {
    if c.id == s.1.id {
        None
    } else if c.parent == s.1.id {
        Some(s.1)
    } else if s.0.contains_key(c.parent) {
        Some(s.0[c.parent])
    } else {
        None
    }
}

/// The set of the nodes that can reach `v`, as a tree: each node keeps the parent through
/// which it reached `v`, the root.
#[derive(Debug)]
pub struct ReachSet {
    pub nodes: HashMap<u64, Node>,
    pub root: Node,
    /// The nodes that the last change updated.
    pub updated_nodes: Vec<u64>,
}

impl View for ReachSet {
    type V = SetView;

    open spec fn view(&self) -> SetView {
        (self.nodes@, self.root, self.updated_nodes@.to_set())
    }
}

impl ReachSet {
    /// Each node is kept under its own id, and no node is listed twice as updated.
    pub open spec fn well_formed(&self) -> bool {
        &&& forall|k: u64| #[trigger] self.nodes@.contains_key(k) ==> self.nodes@[k].id == k
        &&& self.updated_nodes@.no_duplicates()
    }

    /// The set of `id` alone, at `time`.
    pub fn new(id: u64, time: u64) -> (res: Self)
        ensures
            res.well_formed(),
            res@ == (Map::<u64, Node>::empty(), Node { id, parent: id, update_time: time }, Set::<u64>::empty()),
    {
        let res = ReachSet {
            nodes: HashMap::new(),
            root: Node { id, parent: id, update_time: time },
            updated_nodes: Vec::new(),
        };
        assert(res.updated_nodes@.to_set() =~= Set::<u64>::empty());
        res
    }

    /// Takes `node`: a newer one replaces the parent and time of ours, an unknown one is
    /// added. The node is listed as updated either way.
    fn update_or_insert(&mut self, node: &Node)
        ensures
            final(self).nodes@ == took(old(self).nodes@, *node),
            final(self).root == old(self).root,
            final(self).updated_nodes@ == old(self).updated_nodes@.push(node.id),
    {
        match self.nodes.get(&node.id) {
            Some(our_node) => {
                if our_node.update_time < node.update_time {
                    let replaced = Node { id: our_node.id, parent: node.parent, update_time: node.update_time };
                    self.nodes.insert(node.id, replaced);
                }
            },
            None => {
                self.nodes.insert(node.id, *node);
            },
        }
        self.updated_nodes.push(node.id);
    }

    /// Takes every node of `other` within the bound that is not our root, into a set with no
    /// node listed as updated; the nodes taken are listed.
    fn take_nodes(&mut self, other: &ReachSet, time_bound: u64)
        requires
            old(self).well_formed(),
            other.well_formed(),
            old(self).updated_nodes@.len() == 0,
        ensures
            final(self).well_formed(),
            final(self).nodes@ == took_all(old(self).nodes@, other.nodes@, old(self).root.id, time_bound),
            final(self).root == old(self).root,
            final(self).updated_nodes@.to_set() == taken_ids(other.nodes@, old(self).root.id, time_bound),
    {
        let ghost n0 = self.nodes@;
        let ghost o = other.nodes@;
        let ghost r = self.root.id;
        let ids = keys_of(&other.nodes);
        let mut k: usize = 0;
        while k < ids.len()
            invariant
                n0 == old(self).nodes@,
                o == other.nodes@,
                r == self.root.id,
                self.root == old(self).root,
                forall|x: u64| #[trigger] o.contains_key(x) ==> o[x].id == x,
                ids@.no_duplicates(),
                ids@.to_set() == o.dom(),
                k <= ids@.len(),
                forall|x: u64| #[trigger] self.nodes@.contains_key(x) ==> self.nodes@[x].id == x,
                forall|x: u64| #[trigger] n0.contains_key(x) ==> n0[x].id == x,
                self.nodes@ == took_all(n0, o.restrict(ids@.take(k as int).to_set()), r, time_bound),
                self.updated_nodes@.no_duplicates(),
                self.updated_nodes@.to_set() == taken_ids(o.restrict(ids@.take(k as int).to_set()), r, time_bound),
            decreases ids@.len() - k,
        {
            let id = ids[k];
            let ghost done = ids@.take(k as int).to_set();
            let ghost done2 = ids@.take(k + 1).to_set();
            proof {
                assert(ids@.to_set().contains(id));
                assert(ids@.take(k + 1) =~= ids@.take(k as int).push(id));
                ids@.take(k as int).lemma_push_to_set_commute(id);
                assert(!done.contains(id)) by {
                    if done.contains(id) {
                        let j = choose|j: int| 0 <= j < k && #[trigger] ids@.take(k as int)[j] == id;
                        assert(ids@[j] == ids@[k as int]);
                    }
                }
            }
            let node = *other.nodes.get(&id).unwrap();
            let ghost before = self.nodes@;
            let ghost before_upd = self.updated_nodes@;
            let ghost od = o.restrict(done);
            if node.update_time >= time_bound && node.id != self.root.id {
                self.update_or_insert(&node);
            }
            proof {
                let od2 = o.restrict(done2);
                assert(node == o[id] && node.id == id);
                assert forall|x: u64| #[trigger] taken_ids(od2, r, time_bound).contains(x)
                    <==> (taken_ids(od, r, time_bound).contains(x) || (x == id && taken(node, r, time_bound))) by {}
                assert(self.nodes@ =~= took_all(n0, od2, r, time_bound));
                assert(self.updated_nodes@.to_set() =~= taken_ids(od2, r, time_bound)) by {
                    if taken(node, r, time_bound) {
                        before_upd.lemma_push_to_set_commute(id);
                    }
                }
                if taken(node, r, time_bound) {
                    assert(!before_upd.to_set().contains(id));
                    assert forall|a: int, b: int| 0 <= a < b < self.updated_nodes@.len() implies self.updated_nodes@[a] != self.updated_nodes@[b] by {
                        if b == before_upd.len() {
                            assert(before_upd.to_set().contains(self.updated_nodes@[a]));
                        }
                    }
                }
            }
            k += 1;
        }
        proof {
            assert(ids@.take(ids@.len() as int) =~= ids@);
            assert(o.restrict(ids@.to_set()) =~= o);
        }
    }

    /// The root of `other` reaches our root at `cur_time`: it becomes a child of our root, and,
    /// unless `other` is older than `time_bound`, we take the nodes of `other` within the
    /// bound. The nodes taken become the updated ones.
    pub fn connect_from(&mut self, other: &Self, cur_time: u64, time_bound: u64)
        requires
            old(self).well_formed(),
            other.well_formed(),
        ensures
            final(self).well_formed(),
            final(self)@ == connected(old(self)@, other@, cur_time, time_bound),
    {
        if other.root.id == self.root.id {
            return;
        }
        self.root.update_time = cur_time;
        self.updated_nodes.clear();
        let u = other.root.id;
        let link = match self.nodes.get(&u) {
            Some(n) => Node { id: n.id, parent: self.root.id, update_time: cur_time },
            None => Node { id: u, parent: self.root.id, update_time: cur_time },
        };
        self.nodes.insert(u, link);
        if other.root.update_time < time_bound {
            assert(self.updated_nodes@.to_set() =~= Set::<u64>::empty());
            return;
        }
        self.take_nodes(other, time_bound);
    }

    /// The later changes of `other` reach this set, when it holds the root of `other` with the
    /// same time: we take the nodes of `other` within the bound, and they become the updated
    /// ones. Otherwise nothing changes.
    pub fn apply_new_changes(&mut self, other: &Self, time_bound: u64)
        requires
            old(self).well_formed(),
            other.well_formed(),
        ensures
            final(self).well_formed(),
            final(self)@ == applied(old(self)@, other@, time_bound),
    {
        match self.nodes.get(&other.root.id) {
            Some(other_root) => {
                if other_root.update_time != other.root.update_time {
                    return;
                }
            },
            None => {
                return;
            },
        }
        self.updated_nodes.clear();
        self.take_nodes(other, time_bound);
    }

    /// Whether `id` can reach the root: it is the root or one of the nodes.
    pub fn query(&self, id: u64) -> (res: bool)
        ensures
            res == holds(self@, id),
    {
        id == self.root.id || self.nodes.contains_key(&id)
    }

    /// The id of the root.
    pub fn get_id(&self) -> (res: u64)
        ensures
            res == self.root.id,
    {
        self.root.id
    }

    /// The time of the root.
    pub fn get_update_time(&self) -> (res: u64)
        ensures
            res == self.root.update_time,
    {
        self.root.update_time
    }

    /// Writes into `path_buf` the walk from `src` along the parents to the root, when `src`
    /// is in the set; otherwise leaves it as it is.
    pub fn query_path(&self, src: u64, path_buf: &mut Vec<u64>)
        requires
            holds(self@, src) ==> reaches_root(self.nodes@, self.root.id, src),
        ensures
            !holds(self@, src) ==> final(path_buf)@ == old(path_buf)@,
            holds(self@, src) ==> final(path_buf)@ == root_walk(self.nodes@, self.root.id, src),
    {
        if !self.query(src) {
            return;
        }
        path_buf.clear();
        let ghost nodes = self.nodes@;
        let ghost r = self.root.id;
        let ghost f = choose|fuel: nat| #[trigger] parent_walk(nodes, r, src, fuel) is Some;
        proof {
            if src == r {
                assert(parent_walk(nodes, r, src, 0) is Some);
            }
        }
        let ghost whole = parent_walk(nodes, r, src, f)->0;
        let mut cur = src;
        let ghost mut fuel: nat = f;
        while cur != self.root.id
            invariant
                nodes == self.nodes@,
                r == self.root.id,
                parent_walk(nodes, r, cur, fuel) is Some,
                path_buf@ + parent_walk(nodes, r, cur, fuel)->0 == whole,
            decreases fuel,
        {
            let cur_node = *self.nodes.get(&cur).unwrap();
            proof {
                let rest = parent_walk(nodes, r, cur_node.parent, (fuel - 1) as nat)->0;
                assert(path_buf@.push(cur) + rest =~= path_buf@ + (seq![cur] + rest));
            }
            path_buf.push(cur);
            cur = cur_node.parent;
            proof {
                fuel = (fuel - 1) as nat;
            }
        }
        path_buf.push(self.root.id);
    }

    /// A walk from `src` along the parents, one node at a time; it yields nothing when `src`
    /// is not one of the nodes.
    pub fn query_path_iter(&self, src: u64) -> (res: PathIter<'_>)
        ensures
            *res.reach_set == *self,
            res.cur_node == (if self.nodes@.contains_key(src) { Some(self.nodes@[src]) } else { None::<Node> }),
    {
        match self.nodes.get(&src) {
            Some(node) => PathIter { reach_set: self, cur_node: Some(*node) },
            None => PathIter { reach_set: self, cur_node: None },
        }
    }

    /// The nodes the last change updated, in the order they were taken.
    pub fn visit_updated_nodes(&self) -> (res: Vec<u64>)
        ensures
            res@ == self.updated_nodes@,
    {
        let mut res: Vec<u64> = Vec::new();
        let mut k: usize = 0;
        while k < self.updated_nodes.len()
            invariant
                k <= self.updated_nodes@.len(),
                res@ == self.updated_nodes@.take(k as int),
            decreases self.updated_nodes@.len() - k,
        {
            res.push(self.updated_nodes[k]);
            proof {
                assert(self.updated_nodes@.take(k + 1) =~= self.updated_nodes@.take(k as int).push(self.updated_nodes@[k as int]));
            }
            k += 1;
        }
        proof {
            assert(self.updated_nodes@.take(self.updated_nodes@.len() as int) =~= self.updated_nodes@);
        }
        res
    }
}

/// A walk along the parents of a reach set, towards its root.
pub struct PathIter<'a> {
    pub reach_set: &'a ReachSet,
    /// The node the walk yields next.
    pub cur_node: Option<Node>,
}

impl<'a> PathIter<'a> {
    /// Yields the current node and steps to its parent; after the root, or a parent missing
    /// from the set, the walk is over.
    pub fn next(&mut self) -> (res: Option<u64>)
        ensures
            final(self).reach_set == old(self).reach_set,
            match old(self).cur_node {
                None => res is None && final(self).cur_node is None,
                Some(c) => res == Some(c.id) && final(self).cur_node == walk_next(old(self).reach_set@, c),
            },
    {
        match self.cur_node {
            Some(cur) => {
                let root = self.reach_set.root;
                if cur.id == root.id {
                    self.cur_node = None;
                } else if cur.parent == root.id {
                    self.cur_node = Some(root);
                } else {
                    self.cur_node = match self.reach_set.nodes.get(&cur.parent) {
                        Some(n) => Some(*n),
                        None => None,
                    };
                }
                Some(cur.id)
            },
            None => None,
        }
    }
}

/// The sets `m` with a set of its own, at `time`, for `id` when it has none.
pub open spec fn ensured(m: Map<u64, SetView>, id: u64, time: u64) -> Map<u64, SetView> {
    if m.contains_key(id) {
        m
    } else {
        m.insert(id, (Map::empty(), Node { id, parent: id, update_time: time }, Set::empty()))
    }
}

/// The sets `m` after an arc from `src` to `dst` at `time`: both nodes get a set, and the set
/// of `dst` is reached from that of `src`.
pub open spec fn arc_view(m: Map<u64, SetView>, src: u64, dst: u64, time: u64, bound: u64) -> Map<u64, SetView> {
    if src == dst {
        m
    } else {
        let m1 = ensured(ensured(m, src, time), dst, time);
        m1.insert(dst, connected(m1[dst], m1[src], time, bound))
    }
}

/// The sets `m` after the later changes of the set of `dst` reach each set of `modified`, other
/// than that of `dst`, that holds `dst`.
pub open spec fn spread(m: Map<u64, SetView>, modified: Set<u64>, dst: u64, bound: u64) -> Map<u64, SetView> {
    Map::new(
        |k: u64| m.contains_key(k),
        |k: u64|
            if modified.contains(k) && k != dst && holds(m[k], dst) {
                applied(m[k], m[dst], bound)
            } else {
                m[k]
            },
    )
}

/// The sets `m`, and the nodes whose set changed, after the arcs of `batch` at `time` in
/// turn: each arc as a single arc, whose change then spreads to the sets changed before.
pub open spec fn batch_state(m: Map<u64, SetView>, batch: Seq<(u64, u64)>, time: u64, bound: u64) -> (Map<u64, SetView>, Set<u64>)
    decreases batch.len(),
{
    if batch.len() == 0 {
        (m, Set::empty())
    } else {
        let prev = batch_state(m, batch.drop_last(), time, bound);
        let src = batch.last().0;
        let dst = batch.last().1;
        if src == dst {
            prev
        } else {
            let modified = prev.1.insert(dst);
            (spread(arc_view(prev.0, src, dst, time, bound), modified, dst, bound), modified)
        }
    }
}

/// The start of the window of `window` that ends at `time`, or 0.
pub open spec fn window_start(time: u64, window: u64) -> u64 {
    if time >= window {
        (time - window) as u64
    } else {
        0
    }
}

/// Whether `x` is in `v`.
fn has_id(v: &Vec<u64>, x: u64) -> (res: bool)
    ensures
        res == v@.contains(x),
{
    let mut k: usize = 0;
    while k < v.len()
        invariant
            k <= v@.len(),
            forall|j: int| 0 <= j < k ==> v@[j] != x,
        decreases v@.len() - k,
    {
        if v[k] == x {
            return true;
        }
        k += 1;
    }
    false
}

/// Traces which nodes can reach which along flows: paths whose arcs come in time order,
/// within a window.
#[derive(Debug)]
pub struct FlowTracer {
    /// The reach set of each node that an arc has touched.
    pub sets: HashMap<u64, ReachSet>,
    pub window_size: u64,
}

impl View for FlowTracer {
    type V = Map<u64, SetView>;

    open spec fn view(&self) -> Map<u64, SetView> {
        self.sets@.map_values(|r: ReachSet| r@)
    }
}

impl FlowTracer {
    /// Each set is well formed and rooted at the node it belongs to.
    pub open spec fn well_formed(&self) -> bool {
        forall|k: u64| #[trigger] self.sets@.contains_key(k) ==> self.sets@[k].well_formed() && self.sets@[k].root.id == k
    }

    /// A tracer with no arc yet.
    pub fn new(window_size: u64) -> (res: Self)
        ensures
            res.well_formed(),
            res@ == Map::<u64, SetView>::empty(),
            res.window_size == window_size,
    {
        let res = FlowTracer { sets: HashMap::new(), window_size };
        assert(res@ =~= Map::<u64, SetView>::empty());
        res
    }

    /// Gives `id` a set of its own at `time` when it has none.
    fn make_sure_exist(&mut self, id: u64, time: u64)
        requires
            old(self).well_formed(),
        ensures
            final(self).well_formed(),
            final(self)@ == ensured(old(self)@, id, time),
            final(self).window_size == old(self).window_size,
    {
        if !self.sets.contains_key(&id) {
            self.sets.insert(id, ReachSet::new(id, time));
            assert(self@ =~= ensured(old(self)@, id, time));
        }
    }

    /// Connects the set of `dst` from that of `src` at `time`; both exist and differ.
    fn connect(&mut self, src: u64, dst: u64, time: u64, time_bound: u64)
        requires
            old(self).well_formed(),
            src != dst,
            old(self)@.contains_key(src),
            old(self)@.contains_key(dst),
        ensures
            final(self).well_formed(),
            final(self)@ == old(self)@.insert(dst, connected(old(self)@[dst], old(self)@[src], time, time_bound)),
            final(self).window_size == old(self).window_size,
    {
        let ghost v0 = self@;
        let mut dst_set = self.sets.remove(&dst).unwrap();
        let src_set = self.sets.get(&src).unwrap();
        dst_set.connect_from(src_set, time, time_bound);
        self.sets.insert(dst, dst_set);
        assert(self@ =~= v0.insert(dst, connected(v0[dst], v0[src], time, time_bound)));
    }

    /// Adds an arc from `src` to `dst` at `time`: everything that reached `src` within the
    /// window now reaches `dst` too.
    pub fn add_arc(&mut self, src: u64, dst: u64, time: u64)
        requires
            old(self).well_formed(),
        ensures
            final(self).well_formed(),
            final(self)@ == arc_view(old(self)@, src, dst, time, window_start(time, old(self).window_size)),
            final(self).window_size == old(self).window_size,
    {
        if src == dst {
            return;
        }
        self.make_sure_exist(src, time);
        self.make_sure_exist(dst, time);
        let time_bound = time.saturating_sub(self.window_size);
        self.connect(src, dst, time, time_bound);
    }

    /// Adds a batch of arcs at `time`, in turn; after each, the change of the target's set
    /// spreads to the sets changed earlier in the batch that hold the target.
    pub fn add_batch(&mut self, batch: &[(u64, u64)], time: u64)
        requires
            old(self).well_formed(),
        ensures
            final(self).well_formed(),
            final(self)@ == batch_state(old(self)@, batch@, time, window_start(time, old(self).window_size)).0,
            final(self).window_size == old(self).window_size,
    {
        let ghost v0 = self@;
        let time_bound = time.saturating_sub(self.window_size);
        let mut modified: Vec<u64> = Vec::new();
        let mut i: usize = 0;
        while i < batch.len()
            invariant
                i <= batch@.len(),
                self.well_formed(),
                self.window_size == old(self).window_size,
                time_bound == window_start(time, old(self).window_size),
                modified@.no_duplicates(),
                self@ == batch_state(v0, batch@.take(i as int), time, time_bound).0,
                modified@.to_set() == batch_state(v0, batch@.take(i as int), time, time_bound).1,
                forall|k: u64| #[trigger] modified@.contains(k) ==> self@.contains_key(k),
            decreases batch@.len() - i,
        {
            let (src, dst) = batch[i];
            let ghost v_start = self@;
            proof {
                assert(batch@.take(i + 1).drop_last() =~= batch@.take(i as int));
            }
            if src != dst {
                self.make_sure_exist(src, time);
                self.make_sure_exist(dst, time);
                self.connect(src, dst, time, time_bound);
                assert forall|k: u64| #[trigger] modified@.contains(k) implies self@.contains_key(k) by {
                    assert(v_start.contains_key(k));
                }
                if !has_id(&modified, dst) {
                    let ghost before = modified@;
                    modified.push(dst);
                    proof {
                        before.lemma_push_to_set_commute(dst);
                        assert forall|a: int, b: int| 0 <= a < b < modified@.len() implies modified@[a] != modified@[b] by {
                            if b == before.len() {
                                assert(before.contains(modified@[a]));
                            }
                        }
                    }
                } else {
                    proof {
                        assert(modified@.to_set() =~= modified@.to_set().insert(dst));
                    }
                }
                assert forall|k: u64| #[trigger] modified@.contains(k) implies self@.contains_key(k) by {
                    if k != dst {
                        assert(modified@.to_set().contains(k));
                    }
                }
                let ghost m2 = self@;
                let ghost mods = modified@.to_set();
                let mut j: usize = 0;
                while j < modified.len()
                    invariant
                        j <= modified@.len(),
                        self.well_formed(),
                        self.window_size == old(self).window_size,
                        mods == modified@.to_set(),
                        modified@.no_duplicates(),
                        m2.contains_key(dst),
                        forall|k: u64| #[trigger] modified@.contains(k) ==> m2.contains_key(k),
                        self@ == spread(m2, modified@.take(j as int).to_set(), dst, time_bound),
                    decreases modified@.len() - j,
                {
                    let m = modified[j];
                    proof {
                        assert(modified@.take(j + 1) =~= modified@.take(j as int).push(m));
                        modified@.take(j as int).lemma_push_to_set_commute(m);
                        assert(!modified@.take(j as int).contains(m)) by {
                            if modified@.take(j as int).contains(m) {
                                let c = choose|c: int| 0 <= c < j && #[trigger] modified@.take(j as int)[c] == m;
                                assert(modified@[c] == modified@[j as int]);
                            }
                        }
                        assert(modified@.contains(m));
                    }
                    let ghost cur = self@;
                    assert(self@.contains_key(m) && self@.contains_key(dst));
                    assert(self.sets@.contains_key(m) && self.sets@.contains_key(dst));
                    proof {
                        assert(cur[m] == m2[m]);
                        assert(cur[dst] == m2[dst]);
                    }
                    if m != dst {
                        let holds_dst = self.sets.get(&m).unwrap().query(dst);
                        if holds_dst {
                            let mut set = self.sets.remove(&m).unwrap();
                            set.apply_new_changes(self.sets.get(&dst).unwrap(), time_bound);
                            self.sets.insert(m, set);
                            assert(self@ =~= cur.insert(m, applied(cur[m], cur[dst], time_bound)));
                        }
                    }
                    proof {
                        assert(self@ =~= spread(m2, modified@.take(j + 1).to_set(), dst, time_bound));
                    }
                    j += 1;
                }
                proof {
                    assert(modified@.take(modified@.len() as int) =~= modified@);
                }
            }
            i += 1;
        }
        proof {
            assert(batch@.take(batch@.len() as int) =~= batch@);
        }
    }

    /// Whether `src` can reach `dst` along a flow: a node reaches itself.
    pub fn query(&self, src: u64, dst: u64) -> (res: bool)
        ensures
            res == (src == dst || (self@.contains_key(dst) && holds(self@[dst], src))),
    {
        if src == dst {
            true
        } else {
            match self.sets.get(&dst) {
                Some(set) => set.query(src),
                None => false,
            }
        }
    }
}

/// After an arc from `src` to `dst`, `src` reaches `dst`, and so does every node that reached
/// `src` within the window.
pub proof fn lemma_arc_connects(m: Map<u64, SetView>, src: u64, dst: u64, time: u64, bound: u64)
    requires
        src != dst,
        forall|k: u64| #[trigger] m.contains_key(k) ==> m[k].1.id == k,
        forall|k: u64, x: u64| m.contains_key(k) && #[trigger] m[k].0.contains_key(x) ==> m[k].0[x].id == x,
    ensures
        arc_view(m, src, dst, time, bound).contains_key(dst),
        holds(arc_view(m, src, dst, time, bound)[dst], src),
        m.contains_key(src) && m[src].1.update_time >= bound ==> forall|x: u64|
            #[trigger] m[src].0.contains_key(x) && m[src].0[x].update_time >= bound && x != dst
                ==> holds(arc_view(m, src, dst, time, bound)[dst], x),
{
    let m1 = ensured(ensured(m, src, time), dst, time);
    assert(m1[dst].1.id == dst);
    assert(m1[src].1.id == src);
    if m.contains_key(src) && m[src].1.update_time >= bound {
        assert(m1[src] == m[src]);
        assert forall|x: u64| #[trigger] m[src].0.contains_key(x) && m[src].0[x].update_time >= bound && x != dst
            implies holds(arc_view(m, src, dst, time, bound)[dst], x) by {
            assert(m[src].0[x].id == x);
            assert(taken_ids(m1[src].0, dst, bound).contains(x));
        }
    }
}

} // verus!
