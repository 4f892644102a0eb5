use vstd::prelude::*;
use std::collections::{HashMap, HashSet};
use vstd::std_specs::iter::IteratorSpec;

verus! {

broadcast use vstd::std_specs::hash::group_hash_axioms;

/// `p` is a path of the graph with arcs `arcs`: one node or more, each step along an arc.
pub open spec fn is_path(arcs: Set<(u64, u64)>, p: Seq<u64>) -> bool {
    &&& p.len() >= 1
    &&& forall|k: int| 0 <= k < p.len() - 1 ==> #[trigger] arcs.contains((p[k], p[k + 1]))
}

/// Some path leads from `a` to `b` (every node leads to itself).
pub open spec fn leads_to(arcs: Set<(u64, u64)>, a: u64, b: u64) -> bool {
    exists|p: Seq<u64>| #[trigger] is_path(arcs, p) && p[0] == a && p.last() == b
}

/// `a` is an end of some arc.
pub open spec fn is_node(arcs: Set<(u64, u64)>, a: u64) -> bool {
    exists|b: u64| #![trigger arcs.contains((a, b))] #![trigger arcs.contains((b, a))]
        arcs.contains((a, b)) || arcs.contains((b, a))
}

/// `b` is reachable from the node `a`: a path leads from `a` to `b`.
pub open spec fn reachable(arcs: Set<(u64, u64)>, a: u64, b: u64) -> bool {
    is_node(arcs, a) && leads_to(arcs, a, b)
}

/// Every node leads to itself.
pub proof fn lemma_leads_to_self(arcs: Set<(u64, u64)>, a: u64)
    ensures
        leads_to(arcs, a, a),
{
    let p = seq![a];
    assert(is_path(arcs, p));
}

/// An arc leads from its tail to its head.
pub proof fn lemma_leads_along_arc(arcs: Set<(u64, u64)>, a: u64, b: u64)
    requires
        arcs.contains((a, b)),
    ensures
        leads_to(arcs, a, b),
{
    let p = seq![a, b];
    assert(is_path(arcs, p));
}

/// Reachability is transitive.
pub proof fn lemma_leads_to_transitive(arcs: Set<(u64, u64)>, a: u64, b: u64, c: u64)
    requires
        leads_to(arcs, a, b),
        leads_to(arcs, b, c),
    ensures
        leads_to(arcs, a, c),
{
    let p = choose|p: Seq<u64>| #[trigger] is_path(arcs, p) && p[0] == a && p.last() == b;
    let q = choose|q: Seq<u64>| #[trigger] is_path(arcs, q) && q[0] == b && q.last() == c;
    let r = p + q.skip(1);
    assert forall|k: int| 0 <= k < r.len() - 1 implies #[trigger] arcs.contains((r[k], r[k + 1])) by {
        if k < p.len() - 1 {
            assert(r[k] == p[k] && r[k + 1] == p[k + 1]);
        } else if k == p.len() - 1 {
            assert(r[k] == q[0] && r[k + 1] == q[1]);
        } else {
            let t = k - p.len() + 1;
            assert(r[k] == q[t] && r[k + 1] == q[t + 1]);
        }
    }
    assert(is_path(arcs, r));
    if q.len() == 1 {
        assert(r.last() == p.last());
    } else {
        assert(r.last() == q.last());
    }
}

/// A path over the arcs with `(i, j)` added is a path over the old arcs, or reaches `i` over
/// the old arcs from its start and its end from `j`.
proof fn lemma_split_path(arcs: Set<(u64, u64)>, i: u64, j: u64, p: Seq<u64>)
    requires
        is_path(arcs.insert((i, j)), p),
    ensures
        is_path(arcs, p) || (leads_to(arcs, p[0], i) && leads_to(arcs, j, p.last())),
    decreases p.len(),
{
    if p.len() > 1 {
        let q = p.drop_last();
        assert(is_path(arcs.insert((i, j)), q)) by {
            assert forall|k: int| 0 <= k < q.len() - 1 implies #[trigger] arcs.insert((i, j)).contains((q[k], q[k + 1])) by {
                assert(q[k] == p[k] && q[k + 1] == p[k + 1]);
            }
        }
        lemma_split_path(arcs, i, j, q);
        let n = p.len() - 1;
        let m = n - 1;
        assert(arcs.insert((i, j)).contains((p[m], p[m + 1])));
        assert(q.last() == p[n - 1]);
        if arcs.contains((p[n - 1], p[n])) {
            if is_path(arcs, q) {
                assert forall|k: int| 0 <= k < p.len() - 1 implies #[trigger] arcs.contains((p[k], p[k + 1])) by {
                    if k < n - 1 {
                        assert(q[k] == p[k] && q[k + 1] == p[k + 1]);
                    }
                }
            } else {
                lemma_leads_along_arc(arcs, p[n - 1], p[n]);
                lemma_leads_to_transitive(arcs, j, p[n - 1], p[n]);
            }
        } else {
            assert(p[n - 1] == i && p[n] == j);
            lemma_leads_to_self(arcs, j);
            if is_path(arcs, q) {
                assert(leads_to(arcs, q[0], i));
            }
        }
    }
}

/// Adding the arc `(i, j)`: `x` leads to `y` when it did before, or when `x` led to `i` and
/// `j` to `y`.
pub proof fn lemma_add_arc(arcs: Set<(u64, u64)>, i: u64, j: u64, x: u64, y: u64)
    ensures
        leads_to(arcs.insert((i, j)), x, y) <==> (leads_to(arcs, x, y) || (leads_to(arcs, x, i) && leads_to(
            arcs,
            j,
            y,
        ))),
{
    let bigger = arcs.insert((i, j));
    if leads_to(bigger, x, y) {
        let p = choose|p: Seq<u64>| #[trigger] is_path(bigger, p) && p[0] == x && p.last() == y;
        lemma_split_path(arcs, i, j, p);
    }
    lemma_leads_monotone(arcs, bigger, x, y);
    if leads_to(arcs, x, i) && leads_to(arcs, j, y) {
        lemma_leads_monotone(arcs, bigger, x, i);
        lemma_leads_monotone(arcs, bigger, j, y);
        lemma_leads_along_arc(bigger, i, j);
        lemma_leads_to_transitive(bigger, x, i, j);
        lemma_leads_to_transitive(bigger, x, j, y);
    }
}

/// More arcs keep every path.
proof fn lemma_leads_monotone(arcs: Set<(u64, u64)>, more: Set<(u64, u64)>, x: u64, y: u64)
    requires
        arcs.subset_of(more),
    ensures
        leads_to(arcs, x, y) ==> leads_to(more, x, y),
{
    if leads_to(arcs, x, y) {
        let p = choose|p: Seq<u64>| #[trigger] is_path(arcs, p) && p[0] == x && p.last() == y;
        assert forall|k: int| 0 <= k < p.len() - 1 implies #[trigger] more.contains((p[k], p[k + 1])) by {
            assert(arcs.contains((p[k], p[k + 1])));
        }
        assert(is_path(more, p));
    }
}

/// A node that no arc touches leads only to itself.
proof fn lemma_isolated(arcs: Set<(u64, u64)>, x: u64, y: u64)
    requires
        !is_node(arcs, x),
    ensures
        leads_to(arcs, x, y) <==> x == y,
{
    if leads_to(arcs, x, y) {
        let p = choose|p: Seq<u64>| #[trigger] is_path(arcs, p) && p[0] == x && p.last() == y;
        if p.len() > 1 {
            let z: int = 0;
            assert(arcs.contains((p[z], p[z + 1])));
        }
    }
    if x == y {
        lemma_leads_to_self(arcs, x);
    }
}

/// Once the arc `(i, j)` is in the graph, `j` is reachable from `i`.
pub proof fn lemma_arc_reachable(arcs: Set<(u64, u64)>, i: u64, j: u64)
    requires
        arcs.contains((i, j)),
    ensures
        reachable(arcs, i, j),
{
    lemma_leads_along_arc(arcs, i, j);
}

/// Reachability is transitive: when `b` is reachable from `a` and `c` from `b`, `c` is
/// reachable from `a`.
pub proof fn lemma_reachable_transitive(arcs: Set<(u64, u64)>, a: u64, b: u64, c: u64)
    requires
        reachable(arcs, a, b),
        reachable(arcs, b, c),
    ensures
        reachable(arcs, a, c),
{
    lemma_leads_to_transitive(arcs, a, b, c);
}

/// Adding arcs never makes a node unreachable.
pub proof fn lemma_reachable_monotone(arcs: Set<(u64, u64)>, i: u64, j: u64, a: u64, b: u64)
    requires
        reachable(arcs, a, b),
    ensures
        reachable(arcs.insert((i, j)), a, b),
{
    lemma_leads_monotone(arcs, arcs.insert((i, j)), a, b);
    lemma_node_insert(arcs, i, j, a);
    let c = choose|c: u64| arcs.contains((a, c)) || arcs.contains((c, a));
    assert(arcs.insert((i, j)).contains((a, c)) || arcs.insert((i, j)).contains((c, a)));
}

/// The key of the pair `(x, w)` in the index: `x` in the high half, `w` in the low half.
pub open spec fn pair_key(x: u64, w: u64) -> u128 {
    ((x as u128) << 64u128) | (w as u128)
}

proof fn lemma_pair_key_injective(x: u64, w: u64, x2: u64, w2: u64)
    requires
        pair_key(x, w) == pair_key(x2, w2),
    ensures
        x == x2,
        w == w2,
{
    assert(((x as u128) << 64u128) | (w as u128) == ((x2 as u128) << 64u128) | (w2 as u128) ==> x == x2 && w == w2)
        by (bit_vector);
}

fn pair_key_of(x: u64, w: u64) -> (k: u128)
    ensures
        k == pair_key(x, w),
{
    ((x as u128) << 64u128) | (w as u128)
}

/// A node of one of the spanning trees of the index.
struct NodeData {
    id: u64,
    children: Vec<usize>,
}

/// For every node `x` of the graph, a spanning tree of the nodes reachable from `x`, rooted at
/// `x`. The trees live in one arena, and `index` finds the tree node of `w` in the tree of `x`
/// under the key of the pair `(x, w)`.
struct Index {
    index: HashMap<u128, usize>,
    arena: Vec<NodeData>,
    /// The root of the tree of each arena node.
    owner: Ghost<Seq<u64>>,
    /// The parent of each arena node that is not a root.
    parent: Ghost<Seq<int>>,
    /// The depth of each arena node in its tree.
    depth: Ghost<Seq<nat>>,
}

/// `w` is in the tree of `x`, or waits in `pending` to be added to it.
spec fn covered(s: Index, pending: Seq<(u64, u64)>, x: u64, w: u64) -> bool {
    s.has(x, w) || exists|k: int| 0 <= k < pending.len() && (#[trigger] pending[k]).1 == w
}

impl Index {
    pub closed spec fn has(&self, x: u64, w: u64) -> bool {
        self.index@.contains_key(pair_key(x, w))
    }

    pub closed spec fn slot(&self, x: u64, w: u64) -> int {
        self.index@[pair_key(x, w)] as int
    }

    pub closed spec fn id_at(&self, a: int) -> u64 {
        self.arena@[a].id
    }

    pub closed spec fn kids(&self, a: int) -> Seq<usize> {
        self.arena@[a].children@
    }

    /// The nodes of the tree of `x`.
    pub closed spec fn tree_ids(&self, x: u64) -> Set<u64> {
        Set::new(|w: u64| self.has(x, w))
    }

    /// Every key names its arena node, every arena node is named by the key of its root and
    /// id, children stay in the tree of their parent, and every node but a root hangs under a
    /// parent of smaller depth.
    pub closed spec fn inv(&self) -> bool {
        let n = self.arena@.len();
        &&& self.owner@.len() == n
        &&& self.parent@.len() == n
        &&& self.depth@.len() == n
        &&& forall|k: u128| #[trigger]
            self.index@.contains_key(k) ==> {
                let a = self.index@[k] as int;
                &&& 0 <= a < n
                &&& k == pair_key(self.owner@[a], self.id_at(a))
            }
        &&& forall|a: int|
            #![trigger self.id_at(a)]
            0 <= a < n ==> self.has(self.owner@[a], self.id_at(a)) && self.slot(self.owner@[a], self.id_at(a)) == a
        &&& forall|a: int, t: int|
            #![trigger self.kids(a)[t]]
            0 <= a < n && 0 <= t < self.kids(a).len() ==> {
                let c = self.kids(a)[t] as int;
                &&& 0 <= c < n
                &&& self.owner@[c] == self.owner@[a]
            }
        &&& forall|a: int|
            #![trigger self.id_at(a)]
            0 <= a < n && self.id_at(a) != self.owner@[a] ==> {
                let p = self.parent@[a];
                &&& 0 <= p < n
                &&& self.owner@[p] == self.owner@[a]
                &&& self.kids(p).contains(a as usize)
                &&& self.depth@[p] < self.depth@[a]
            }
    }

    /// Every tree edge is an arc of `arcs`.
    pub closed spec fn edges_in(&self, arcs: Set<(u64, u64)>) -> bool {
        forall|a: int, t: int|
            #![trigger self.kids(a)[t]]
            0 <= a < self.arena@.len() && 0 <= t < self.kids(a).len() ==> arcs.contains(
                (self.id_at(a), self.id_at(self.kids(a)[t] as int)),
            )
    }

    proof fn lemma_slot(&self, x: u64, w: u64)
        requires
            self.inv(),
            self.has(x, w),
        ensures
            0 <= self.slot(x, w) < self.arena@.len(),
            self.owner@[self.slot(x, w)] == x,
            self.id_at(self.slot(x, w)) == w,
    {
        let k = pair_key(x, w);
        let a = self.slot(x, w);
        assert(self.index@.contains_key(k));
        lemma_pair_key_injective(x, w, self.owner@[a], self.id_at(a));
    }

    proof fn lemma_tree_finite(&self, x: u64)
        requires
            self.inv(),
        ensures
            self.tree_ids(x).finite(),
    {
        let all = Seq::new(self.arena@.len(), |a: int| self.id_at(a));
        assert forall|w: u64| self.tree_ids(x).contains(w) implies all.to_set().contains(w) by {
            self.lemma_slot(x, w);
            assert(all[self.slot(x, w)] == w);
        }
        assert(self.tree_ids(x).subset_of(all.to_set()));
    }

    pub fn new() -> (res: Self)
        ensures
            res.inv(),
            forall|x: u64, w: u64| !res.has(x, w),
    {
        Index {
            index: HashMap::new(),
            arena: Vec::new(),
            owner: Ghost(Seq::empty()),
            parent: Ghost(Seq::empty()),
            depth: Ghost(Seq::empty()),
        }
    }

    /// Starts the tree of the node `id`, which holds `id` alone; a node that has its tree
    /// keeps it.
    pub fn add_node(&mut self, id: u64, Ghost(arcs): Ghost<Set<(u64, u64)>>)
        requires
            old(self).inv(),
            old(self).edges_in(arcs),
        ensures
            final(self).inv(),
            final(self).edges_in(arcs),
            forall|y: u64, w: u64| #[trigger] final(self).has(y, w) == (old(self).has(y, w) || (y == id && w == id)),
    {
        let ghost before = *self;
        let key = pair_key_of(id, id);
        if self.index.contains_key(&key) {
            return;
        }
        let a = self.arena.len();
        self.arena.push(NodeData { id, children: Vec::new() });
        self.index.insert(key, a);
        self.owner = Ghost(self.owner@.push(id));
        self.parent = Ghost(self.parent@.push(0));
        self.depth = Ghost(self.depth@.push(0));
        proof {
            assert forall|k: u128| #[trigger] self.index@.contains_key(k) implies {
                let b = self.index@[k] as int;
                &&& 0 <= b < self.arena@.len()
                &&& k == pair_key(self.owner@[b], self.id_at(b))
            } by {
                if k != pair_key(id, id) {
                    assert(before.index@.contains_key(k));
                }
            }
            assert forall|b: int| 0 <= b < self.arena@.len() implies #[trigger] self.has(self.owner@[b], self.id_at(b))
                && self.slot(self.owner@[b], self.id_at(b)) == b by {
                if b < a {
                    assert(before.id_at(b) == self.id_at(b));
                    assert(before.has(before.owner@[b], before.id_at(b)));
                    if pair_key(self.owner@[b], self.id_at(b)) == pair_key(id, id) {
                        lemma_pair_key_injective(self.owner@[b], self.id_at(b), id, id);
                    }
                }
            }
            assert forall|b: int, t: int| 0 <= b < self.arena@.len() && 0 <= t < self.kids(b).len() implies {
                let c = self.kids(b)[t] as int;
                &&& 0 <= c < self.arena@.len()
                &&& self.owner@[c] == self.owner@[b]
            } && arcs.contains((self.id_at(b), self.id_at(self.kids(b)[t] as int))) by {
                assert(b < a);
                assert(before.kids(b)[t] == self.kids(b)[t]);
            }
            assert forall|b: int| 0 <= b < self.arena@.len() && #[trigger] self.id_at(b) != self.owner@[b] implies {
                let p = self.parent@[b];
                &&& 0 <= p < self.arena@.len()
                &&& self.owner@[p] == self.owner@[b]
                &&& self.kids(p).contains(b as usize)
                &&& self.depth@[p] < self.depth@[b]
            } by {
                assert(b < a);
                assert(before.id_at(b) == self.id_at(b));
                assert(before.kids(before.parent@[b]) == self.kids(self.parent@[b]));
            }
            assert forall|y: u64, w: u64| #[trigger] self.has(y, w) == (before.has(y, w) || (y == id && w == id)) by {
                if pair_key(y, w) == pair_key(id, id) {
                    lemma_pair_key_injective(y, w, id, id);
                }
            }
        }
    }

    /// The pairs `(w, c)` for the children `c` of the arena node `a`.
    fn child_pairs(&self, a: usize, w: u64) -> (res: Vec<(u64, u64)>)
        requires
            self.inv(),
            a < self.arena@.len(),
        ensures
            res@.len() == self.kids(a as int).len(),
            forall|t: int| 0 <= t < res@.len() ==> #[trigger] res@[t] == (w, self.id_at(self.kids(a as int)[t] as int)),
    {
        let mut out: Vec<(u64, u64)> = Vec::new();
        let mut t: usize = 0;
        while t < self.arena[a].children.len()
            invariant
                self.inv(),
                a < self.arena@.len(),
                t <= self.kids(a as int).len(),
                out@.len() == t,
                forall|r: int| 0 <= r < t ==> #[trigger] out@[r] == (w, self.id_at(self.kids(a as int)[r] as int)),
            decreases self.kids(a as int).len() - t,
        {
            let c = self.arena[a].children[t];
            assert(self.kids(a as int)[t as int] == c);
            out.push((w, self.arena[c].id));
            t += 1;
        }
        out
    }

    /// Melds into the tree of `x` the part of the tree of `j` that hangs from `v`, joined by
    /// the arc from `u` (in the tree of `x`) to `v` (not in it). A node already in the tree of
    /// `x` is skipped together with what hangs from it.
    pub fn meld(&mut self, x: u64, j: u64, u: u64, v: u64, Ghost(arcs): Ghost<Set<(u64, u64)>>)
        requires
            old(self).inv(),
            old(self).edges_in(arcs),
            x != j,
            old(self).has(x, u),
            old(self).has(j, v),
            !old(self).has(x, v),
            arcs.contains((u, v)),
        ensures
            final(self).inv(),
            final(self).edges_in(arcs),
            forall|y: u64, w: u64| y != x ==> (#[trigger] final(self).has(y, w) == old(self).has(y, w)),
            forall|w: u64| old(self).has(x, w) ==> #[trigger] final(self).has(x, w),
            final(self).has(x, v),
            forall|w: u64| #[trigger] final(self).has(x, w) ==> old(self).has(x, w) || old(self).has(j, w),
            forall|w: u64, t: int|
                #![trigger final(self).has(x, w), final(self).kids(final(self).slot(j, w))[t]]
                final(self).has(x, w) && !old(self).has(x, w) && 0 <= t < final(self).kids(final(self).slot(j, w)).len()
                    ==> final(self).has(x, final(self).id_at(final(self).kids(final(self).slot(j, w))[t] as int)),
    {
        let ghost start = *self;
        let mut pending: Vec<(u64, u64)> = Vec::new();
        pending.push((u, v));
        proof {
            start.lemma_tree_finite(j);
            assert(pending@[0] == (u, v));
        }
        while pending.len() > 0
            invariant
                self.inv(),
                self.edges_in(arcs),
                x != j,
                start.tree_ids(j).finite(),
                forall|y: u64, w: u64| y != x ==> (#[trigger] self.has(y, w) == start.has(y, w)),
                forall|w: u64| start.has(x, w) ==> #[trigger] self.has(x, w),
                forall|w: u64| #[trigger] self.has(x, w) ==> start.has(x, w) || start.has(j, w),
                covered(*self, pending@, x, v),
                forall|w: u64, t: int|
                    #![trigger self.has(x, w), self.kids(self.slot(j, w))[t]]
                    self.has(x, w) && !start.has(x, w) && 0 <= t < self.kids(self.slot(j, w)).len() ==> covered(
                        *self,
                        pending@,
                        x,
                        self.id_at(self.kids(self.slot(j, w))[t] as int),
                    ),
                forall|k: int|
                    0 <= k < pending@.len() ==> {
                        &&& self.has(x, (#[trigger] pending@[k]).0)
                        &&& self.has(j, pending@[k].1)
                        &&& arcs.contains(pending@[k])
                    },
            decreases start.tree_ids(j).difference(self.tree_ids(x)).len(), pending@.len(),
        {
            let ghost before = *self;
            let ghost pend = pending@;
            let (p, w) = pending.pop().unwrap();
            proof {
                assert(pend[pend.len() - 1] == (p, w));
                assert(pending@ =~= pend.drop_last());
            }
            let kw = pair_key_of(x, w);
            if !self.index.contains_key(&kw) {
                proof {
                    before.lemma_slot(x, p);
                    before.lemma_slot(j, w);
                }
                let pa: usize = *self.index.get(&pair_key_of(x, p)).unwrap();
                let ja: usize = *self.index.get(&pair_key_of(j, w)).unwrap();
                let a = self.arena.len();
                self.arena.push(NodeData { id: w, children: Vec::new() });
                self.index.insert(kw, a);
                self.arena[pa].children.push(a);
                self.owner = Ghost(self.owner@.push(x));
                self.parent = Ghost(self.parent@.push(pa as int));
                self.depth = Ghost(self.depth@.push(before.depth@[pa as int] + 1));
                proof {
                    self.lemma_meld_step(before, arcs, x, j, p, w, pa as int, ja as int);
                }
                let mut more = self.child_pairs(ja, w);
                let ghost more0 = more@;
                pending.append(&mut more);
                proof {
                    let s = *self;
                    assert forall|y: u64, w2: u64| y != x implies (#[trigger] s.has(y, w2) == start.has(y, w2)) by {
                        assert(s.has(y, w2) == before.has(y, w2));
                    }
                    assert(s.tree_ids(x) =~= before.tree_ids(x).insert(w));
                    assert(start.tree_ids(j).difference(s.tree_ids(x)) =~= start.tree_ids(j).difference(before.tree_ids(x)).remove(w));
                    assert(start.tree_ids(j).difference(before.tree_ids(x)).contains(w));
                    assert forall|k: int| 0 <= k < pending@.len() implies {
                        &&& s.has(x, (#[trigger] pending@[k]).0)
                        &&& s.has(j, pending@[k].1)
                        &&& arcs.contains(pending@[k])
                    } by {
                        if k < pend.len() - 1 {
                            assert(pending@[k] == pend[k]);
                        } else {
                            let t = k - (pend.len() - 1);
                            assert(pending@[k] == more0[t]);
                            let c = s.kids(ja as int)[t] as int;
                            assert(before.kids(ja as int)[t] == s.kids(ja as int)[t]);
                            assert(before.owner@[c] == j);
                            assert(before.id_at(c) == s.id_at(c));
                            assert(before.has(before.owner@[c], before.id_at(c)));
                        }
                    }
                    assert(covered(s, pending@, x, v)) by {
                        if !before.has(x, v) && v != w {
                            let k = choose|k: int| 0 <= k < pend.len() && (#[trigger] pend[k]).1 == v;
                            assert(k < pend.len() - 1);
                            assert(pending@[k] == pend[k]);
                        }
                    }
                    assert forall|w2: u64, t: int|
                        #![trigger s.has(x, w2), s.kids(s.slot(j, w2))[t]]
                        s.has(x, w2) && !start.has(x, w2) && 0 <= t < s.kids(s.slot(j, w2)).len() implies covered(
                            s,
                            pending@,
                            x,
                            s.id_at(s.kids(s.slot(j, w2))[t] as int),
                        ) by {
                        if w2 == w {
                            let k = pend.len() - 1 + t;
                            assert(pending@[k] == more0[t]);
                        } else {
                            assert(before.has(x, w2));
                            before.lemma_slot(j, w2);
                            let ca = before.kids(before.slot(j, w2))[t] as int;
                            assert(s.kids(s.slot(j, w2)) == before.kids(before.slot(j, w2)));
                            assert(s.id_at(ca) == before.id_at(ca));
                            let c = before.id_at(ca);
                            assert(covered(before, pend, x, c));
                            if !before.has(x, c) && c != w {
                                let k = choose|k: int| 0 <= k < pend.len() && (#[trigger] pend[k]).1 == c;
                                assert(k < pend.len() - 1);
                                assert(pending@[k] == pend[k]);
                            }
                        }
                    }
                }
            } else {
                proof {
                    let s = *self;
                    assert(covered(s, pending@, x, v)) by {
                        if !s.has(x, v) {
                            let k = choose|k: int| 0 <= k < pend.len() && (#[trigger] pend[k]).1 == v;
                            assert(k < pend.len() - 1);
                            assert(pending@[k] == pend[k]);
                        }
                    }
                    assert forall|w2: u64, t: int|
                        #![trigger s.has(x, w2), s.kids(s.slot(j, w2))[t]]
                        s.has(x, w2) && !start.has(x, w2) && 0 <= t < s.kids(s.slot(j, w2)).len() implies covered(
                            s,
                            pending@,
                            x,
                            s.id_at(s.kids(s.slot(j, w2))[t] as int),
                        ) by {
                        let c = s.id_at(s.kids(s.slot(j, w2))[t] as int);
                        assert(covered(before, pend, x, c));
                        if !s.has(x, c) {
                            let k = choose|k: int| 0 <= k < pend.len() && (#[trigger] pend[k]).1 == c;
                            assert(k < pend.len() - 1);
                            assert(pending@[k] == pend[k]);
                        }
                    }
                    assert forall|k: int| 0 <= k < pending@.len() implies {
                        &&& s.has(x, (#[trigger] pending@[k]).0)
                        &&& s.has(j, pending@[k].1)
                        &&& arcs.contains(pending@[k])
                    } by {
                        assert(pending@[k] == pend[k]);
                    }
                }
            }
        }
    }

    /// One step of `meld`: the node `w` joins the tree of `x` under `p`.
    proof fn lemma_meld_step(&self, before: Index, arcs: Set<(u64, u64)>, x: u64, j: u64, p: u64, w: u64, pa: int, ja: int)
        requires
            before.inv(),
            before.edges_in(arcs),
            x != j,
            before.has(x, p),
            before.has(j, w),
            !before.has(x, w),
            arcs.contains((p, w)),
            pa == before.slot(x, p),
            ja == before.slot(j, w),
            before.arena@.len() <= usize::MAX,
            self.index@ == before.index@.insert(pair_key(x, w), before.arena@.len() as usize),
            self.arena@.len() == before.arena@.len() + 1,
            forall|b: int| 0 <= b < before.arena@.len() && b != pa ==> #[trigger] self.arena@[b] == before.arena@[b],
            self.id_at(pa) == before.id_at(pa),
            self.kids(pa) == before.kids(pa).push(before.arena@.len() as usize),
            self.id_at(before.arena@.len() as int) == w,
            self.kids(before.arena@.len() as int) == Seq::<usize>::empty(),
            self.owner@ == before.owner@.push(x),
            self.parent@ == before.parent@.push(pa),
            self.depth@ == before.depth@.push(before.depth@[pa] + 1),
        ensures
            self.inv(),
            self.edges_in(arcs),
            forall|y: u64, w2: u64| #[trigger] self.has(y, w2) == (before.has(y, w2) || (y == x && w2 == w)),
            forall|y: u64, w2: u64| #[trigger] self.has(y, w2) && (y != x || w2 != w) ==> self.slot(y, w2) == before.slot(y, w2),
            self.kids(ja) == before.kids(ja),
            forall|c: int| 0 <= c < before.arena@.len() ==> #[trigger] self.id_at(c) == before.id_at(c),
            forall|b: int| 0 <= b < before.arena@.len() && before.owner@[b] != x ==> #[trigger] self.kids(b) == before.kids(b),
    {
        let n = before.arena@.len() as int;
        let a = n;
        before.lemma_slot(x, p);
        before.lemma_slot(j, w);
        assert forall|y: u64, w2: u64| #[trigger] self.has(y, w2) == (before.has(y, w2) || (y == x && w2 == w)) by {
            if pair_key(y, w2) == pair_key(x, w) {
                lemma_pair_key_injective(y, w2, x, w);
            }
        }
        assert forall|c: int| 0 <= c < n implies #[trigger] self.id_at(c) == before.id_at(c) by {
            if c != pa {
                assert(self.arena@[c] == before.arena@[c]);
            }
        }
        assert forall|b: int| 0 <= b < n && before.owner@[b] != x implies #[trigger] self.kids(b) == before.kids(b) by {
            assert(b != pa);
            assert(self.arena@[b] == before.arena@[b]);
        }
        assert forall|k: u128| #[trigger] self.index@.contains_key(k) implies {
            let b = self.index@[k] as int;
            &&& 0 <= b < self.arena@.len()
            &&& k == pair_key(self.owner@[b], self.id_at(b))
        } by {
            if k != pair_key(x, w) {
                assert(before.index@.contains_key(k));
                let b = before.index@[k] as int;
                assert(self.index@[k] == before.index@[k]);
                assert(self.id_at(b) == before.id_at(b));
                assert(self.owner@[b] == before.owner@[b]);
            } else {
                assert(self.index@[k] == a as usize);
                assert(self.owner@[a] == x);
            }
        }
        assert forall|b: int| #![trigger self.id_at(b)] 0 <= b < self.arena@.len() implies self.has(self.owner@[b], self.id_at(b))
            && self.slot(self.owner@[b], self.id_at(b)) == b by {
            if b < n {
                assert(self.id_at(b) == before.id_at(b));
                assert(before.has(before.owner@[b], before.id_at(b)));
                if pair_key(self.owner@[b], self.id_at(b)) == pair_key(x, w) {
                    lemma_pair_key_injective(self.owner@[b], self.id_at(b), x, w);
                }
            }
        }
        assert forall|b: int, t: int| #![trigger self.kids(b)[t]] 0 <= b < self.arena@.len() && 0 <= t < self.kids(b).len() implies {
            let c = self.kids(b)[t] as int;
            &&& 0 <= c < self.arena@.len()
            &&& self.owner@[c] == self.owner@[b]
        } && arcs.contains((self.id_at(b), self.id_at(self.kids(b)[t] as int))) by {
            if b == pa {
                if t < before.kids(pa).len() {
                    assert(self.kids(b)[t] == before.kids(pa)[t]);
                    let c = before.kids(pa)[t] as int;
                    assert(self.id_at(c) == before.id_at(c));
                } else {
                    assert(self.kids(b)[t] == a);
                }
            } else {
                assert(b < n);
                assert(self.arena@[b] == before.arena@[b]);
                assert(self.kids(b)[t] == before.kids(b)[t]);
                let c = before.kids(b)[t] as int;
                assert(self.id_at(c) == before.id_at(c));
            }
        }
        assert forall|b: int| #![trigger self.id_at(b)] 0 <= b < self.arena@.len() && self.id_at(b) != self.owner@[b] implies {
            let q = self.parent@[b];
            &&& 0 <= q < self.arena@.len()
            &&& self.owner@[q] == self.owner@[b]
            &&& self.kids(q).contains(b as usize)
            &&& self.depth@[q] < self.depth@[b]
        } by {
            if b < n {
                assert(self.id_at(b) == before.id_at(b));
                let q = before.parent@[b];
                assert(before.kids(q).contains(b as usize));
                if q == pa {
                    let t = choose|t: int| 0 <= t < before.kids(pa).len() && before.kids(pa)[t] == b as usize;
                    assert(self.kids(q)[t] == b as usize);
                } else {
                    assert(self.arena@[q] == before.arena@[q]);
                }
            } else {
                assert(self.kids(pa)[before.kids(pa).len() as int] == a as usize);
            }
        }
        assert forall|y: u64, w2: u64| #[trigger] self.has(y, w2) && (y != x || w2 != w) implies self.slot(y, w2) == before.slot(y, w2) by {
            if pair_key(y, w2) == pair_key(x, w) {
                lemma_pair_key_injective(y, w2, x, w);
            }
        }
        assert(ja != pa);
        assert(self.arena@[ja] == before.arena@[ja]);
    }

    /// When the tree of `x` holds `j` and, with every node it shares with the tree of `j`, that
    /// node's children there, it holds every node of the tree of `j`.
    proof fn lemma_tree_covered(&self, x: u64, j: u64, a: int)
        requires
            self.inv(),
            self.has(x, j),
            0 <= a < self.arena@.len(),
            self.owner@[a] == j,
            forall|w: u64, t: int|
                #![trigger self.has(x, w), self.kids(self.slot(j, w))[t]]
                self.has(x, w) && self.has(j, w) && 0 <= t < self.kids(self.slot(j, w)).len() ==> self.has(
                    x,
                    self.id_at(self.kids(self.slot(j, w))[t] as int),
                ),
        ensures
            self.has(x, self.id_at(a)),
        decreases self.depth@[a],
    {
        if self.id_at(a) != self.owner@[a] {
            let q = self.parent@[a];
            self.lemma_tree_covered(x, j, q);
            let w = self.id_at(q);
            assert(self.has(self.owner@[q], self.id_at(q)));
            assert(self.slot(j, w) == q);
            let t = choose|t: int| 0 <= t < self.kids(q).len() && self.kids(q)[t] == a as usize;
            assert(self.kids(self.slot(j, w))[t] == a as usize);
        }
    }

    /// Whether `j` is in the tree of `i`.
    pub fn query(&self, i: u64, j: u64) -> (res: bool)
        ensures
            res == self.has(i, j),
    {
        self.index.contains_key(&pair_key_of(i, j))
    }
}

proof fn lemma_push_contains(s: Seq<u64>, x: u64, y: u64)
    ensures
        s.push(x).contains(y) == (s.contains(y) || y == x),
{
    if s.contains(y) {
        let k = choose|k: int| 0 <= k < s.len() && s[k] == y;
        assert(s.push(x)[k] == y);
    }
    if y == x {
        assert(s.push(x)[s.len() as int] == y);
    }
    if s.push(x).contains(y) {
        let k = choose|k: int| 0 <= k < s.push(x).len() && s.push(x)[k] == y;
        if k < s.len() {
            assert(s[k] == y);
        }
    }
}

/// A path that leaves its start has its ends on arcs.
proof fn lemma_ends_are_nodes(arcs: Set<(u64, u64)>, a: u64, b: u64)
    requires
        leads_to(arcs, a, b),
        a != b,
    ensures
        is_node(arcs, a),
        is_node(arcs, b),
{
    let p = choose|p: Seq<u64>| #[trigger] is_path(arcs, p) && p[0] == a && p.last() == b;
    let z: int = 0;
    assert(arcs.contains((p[z], p[z + 1])));
    let m = p.len() - 2;
    assert(arcs.contains((p[m], p[m + 1])));
}

/// The nodes after adding the arc `(i, j)`.
proof fn lemma_node_insert(arcs: Set<(u64, u64)>, i: u64, j: u64, a: u64)
    ensures
        is_node(arcs.insert((i, j)), a) <==> (is_node(arcs, a) || a == i || a == j),
{
    let bigger = arcs.insert((i, j));
    if is_node(arcs, a) {
        let b = choose|b: u64| arcs.contains((a, b)) || arcs.contains((b, a));
        assert(bigger.contains((a, b)) || bigger.contains((b, a)));
    }
    if a == i {
        assert(bigger.contains((a, j)));
    }
    if a == j {
        assert(bigger.contains((i, a)));
    }
    if is_node(bigger, a) {
        let b = choose|b: u64| bigger.contains((a, b)) || bigger.contains((b, a));
        if arcs.contains((a, b)) || arcs.contains((b, a)) {
        }
    }
}

/// Adding `(i, j)` changes nothing of what `x` leads to when `x` did not lead to `i`, or
/// already led to `j`.
proof fn lemma_add_arc_unchanged(arcs: Set<(u64, u64)>, i: u64, j: u64, x: u64)
    requires
        !leads_to(arcs, x, i) || leads_to(arcs, x, j),
    ensures
        forall|w: u64| #[trigger] leads_to(arcs.insert((i, j)), x, w) == leads_to(arcs, x, w),
{
    assert forall|w: u64| #[trigger] leads_to(arcs.insert((i, j)), x, w) == leads_to(arcs, x, w) by {
        lemma_add_arc(arcs, i, j, x, w);
        if leads_to(arcs, x, j) && leads_to(arcs, j, w) {
            lemma_leads_to_transitive(arcs, x, j, w);
        }
    }
}

/// `y` is reachable from `x` exactly when `x` is a node and `y` is `x`, or a path of one arc
/// or more leads from `x` to `y`.
pub proof fn lemma_reachable_by_path(arcs: Set<(u64, u64)>, x: u64, y: u64)
    ensures
        reachable(arcs, x, y) <==> ((x == y && is_node(arcs, x)) || exists|p: Seq<u64>|
            #[trigger] is_path(arcs, p) && p.len() >= 2 && p[0] == x && p.last() == y),
{
    if reachable(arcs, x, y) && x != y {
        let p = choose|p: Seq<u64>| #[trigger] is_path(arcs, p) && p[0] == x && p.last() == y;
        assert(p.len() >= 2);
    }
    if x == y && is_node(arcs, x) {
        lemma_leads_to_self(arcs, x);
    }
    if exists|p: Seq<u64>| #[trigger] is_path(arcs, p) && p.len() >= 2 && p[0] == x && p.last() == y {
        let p = choose|p: Seq<u64>| #[trigger] is_path(arcs, p) && p.len() >= 2 && p[0] == x && p.last() == y;
        let z: int = 0;
        assert(arcs.contains((p[z], p[z + 1])));
        assert(arcs.contains((x, p[1])));
    }
}

/// Adding the arc `(i, j)` gives the closure of the graph plus that arc: the nodes gain `i`
/// and `j`, and `y` is reachable from the node `x` exactly when a path led from `x` to `y`
/// before, or one led from `x` to `i` and one from `j` to `y`. In particular `j` is then
/// reachable from `i`, and from every node that reached `i`.
pub proof fn lemma_closure_after_add(arcs: Set<(u64, u64)>, i: u64, j: u64, x: u64, y: u64)
    ensures
        is_node(arcs.insert((i, j)), x) <==> (is_node(arcs, x) || x == i || x == j),
        reachable(arcs.insert((i, j)), x, y) <==> (is_node(arcs.insert((i, j)), x) && (leads_to(arcs, x, y) || (
            leads_to(arcs, x, i) && leads_to(arcs, j, y)))),
        reachable(arcs.insert((i, j)), i, j),
        reachable(arcs, x, i) ==> reachable(arcs.insert((i, j)), x, j),
{
    lemma_node_insert(arcs, i, j, x);
    lemma_node_insert(arcs, i, j, i);
    lemma_add_arc(arcs, i, j, x, y);
    lemma_leads_along_arc(arcs.insert((i, j)), i, j);
    if reachable(arcs, x, i) {
        lemma_reachable_monotone(arcs, i, j, x, i);
        lemma_reachable_transitive(arcs.insert((i, j)), x, i, j);
    }
}

/// The transitive closure of a directed graph that grows arc by arc: it answers whether a path
/// leads from one node to another, and keeps for every node a spanning tree of the nodes it
/// reaches.
pub struct TransitiveClosure {
    nodes: HashSet<u64>,
    index: Index,
    arcs: Ghost<Set<(u64, u64)>>,
}

impl View for TransitiveClosure {
    type V = Set<(u64, u64)>;

    /// The arcs added so far.
    closed spec fn view(&self) -> Set<(u64, u64)> {
        self.arcs@
    }
}

impl TransitiveClosure {
    /// The nodes are the ends of the arcs, and the tree of each node holds exactly the nodes
    /// that it leads to.
    pub closed spec fn well_formed(&self) -> bool {
        &&& self.index.inv()
        &&& self.index.edges_in(self.arcs@)
        &&& forall|a: u64| #[trigger] self.nodes@.contains(a) <==> is_node(self.arcs@, a)
        &&& forall|x: u64, w: u64| #[trigger]
            self.index.has(x, w) <==> (self.nodes@.contains(x) && leads_to(self.arcs@, x, w))
    }

    /// The closure of the graph without arcs.
    pub fn new() -> (res: Self)
        ensures
            res.well_formed(),
            res@ == Set::<(u64, u64)>::empty(),
    {
        TransitiveClosure { nodes: HashSet::new(), index: Index::new(), arcs: Ghost(Set::empty()) }
    }

    /// Adds an arc from `i` to `j`.
    pub fn add(&mut self, i: u64, j: u64)
        requires
            old(self).well_formed(),
        ensures
            final(self).well_formed(),
            final(self)@ == old(self)@.insert((i, j)),
    {
        let ghost a0 = self.arcs@;
        let ghost a1 = a0.insert((i, j));
        proof {
            assert forall|a: u64| #[trigger] is_node(a1, a) <==> (is_node(a0, a) || a == i || a == j) by {
                lemma_node_insert(a0, i, j, a);
            }
            assert(a0.subset_of(a1));
        }
        if self.is_reachable(i, j) {
            proof {
                if i != j {
                    lemma_ends_are_nodes(a0, i, j);
                }
                assert forall|x: u64, w: u64| #[trigger] leads_to(a1, x, w) == leads_to(a0, x, w) by {
                    lemma_add_arc(a0, i, j, x, w);
                    if leads_to(a0, x, i) && leads_to(a0, j, w) {
                        lemma_leads_to_transitive(a0, x, i, j);
                        lemma_leads_to_transitive(a0, x, j, w);
                    }
                }
            }
            self.arcs = Ghost(a1);
            return;
        }
        if self.nodes.insert(i) {
            proof {
                assert forall|w: u64| #[trigger] leads_to(a0, i, w) <==> w == i by {
                    lemma_isolated(a0, i, w);
                }
            }
            self.index.add_node(i, Ghost(a0));
        }
        if self.nodes.insert(j) {
            proof {
                assert forall|w: u64| #[trigger] leads_to(a0, j, w) <==> w == j by {
                    lemma_isolated(a0, j, w);
                }
            }
            self.index.add_node(j, Ghost(a0));
        }
        self.arcs = Ghost(a1);
        let ghost nodes = self.nodes@;
        proof {
            assert forall|w: u64| #[trigger] leads_to(a1, j, w) == leads_to(a0, j, w) by {
                lemma_add_arc(a0, i, j, j, w);
            }
            lemma_leads_to_self(a0, j);
            lemma_leads_to_self(a1, j);
            assert forall|t: int, u: int| #![trigger self.index.kids(t)[u]]
                0 <= t < self.index.arena@.len() && 0 <= u < self.index.kids(t).len() implies a1.contains(
                (self.index.id_at(t), self.index.id_at(self.index.kids(t)[u] as int)),
            ) by {
                assert(a0.contains((self.index.id_at(t), self.index.id_at(self.index.kids(t)[u] as int))));
            }
        }
        let ghost keys = IteratorSpec::remaining(&self.nodes.iter());
        for x in it: self.nodes.iter()
            invariant
                it.seq() == keys,
                keys.unref().to_set() == nodes,
                keys.unref().no_duplicates(),
                self.nodes@ == nodes,
                self.arcs@ == a1,
                a1 == a0.insert((i, j)),
                self.index.inv(),
                self.index.edges_in(a1),
                forall|a: u64| #[trigger] nodes.contains(a) <==> is_node(a1, a),
                nodes.contains(i),
                nodes.contains(j),
                forall|w: u64| #[trigger] leads_to(a1, j, w) == leads_to(a0, j, w),
                forall|x: u64, w: u64| #[trigger]
                    self.index.has(x, w) <==> (nodes.contains(x) && (if keys.unref().take(
                        it.index() as int,
                    ).contains(x) {
                        leads_to(a1, x, w)
                    } else {
                        leads_to(a0, x, w)
                    })),
        {
            let xv = *x;
            let ghost done = keys.unref().take(it.index() as int);
            let ghost before = self.index;
            proof {
                assert(keys.unref()[it.index() as int] == xv);
                assert(!done.contains(xv)) by {
                    if done.contains(xv) {
                        let k = choose|k: int| 0 <= k < done.len() && done[k] == xv;
                        assert(keys.unref()[k] == xv);
                    }
                }
                assert(keys.unref().take(it.index() + 1) =~= done.push(xv));
                assert forall|y: u64| #[trigger] keys.unref().take(it.index() + 1).contains(y) == (done.contains(y) || y == xv) by {
                    lemma_push_contains(done, xv, y);
                }
                assert(nodes.contains(xv)) by {
                    assert(keys.unref().contains(xv));
                }
                lemma_leads_to_self(a0, xv);
                lemma_leads_to_self(a0, j);
                lemma_leads_to_self(a1, j);
                assert(self.index.has(j, j));
            }
            if self.index.query(xv, i) && !self.index.query(xv, j) {
                self.index.meld(xv, j, i, j, Ghost(a1));
                proof {
                    let s = self.index;
                    lemma_leads_along_arc(a1, i, j);
                    lemma_leads_monotone(a0, a1, xv, i);
                    lemma_leads_to_transitive(a1, xv, i, j);
                    assert forall|w: u64, t: int|
                        #![trigger s.has(xv, w), s.kids(s.slot(j, w))[t]]
                        s.has(xv, w) && s.has(j, w) && 0 <= t < s.kids(s.slot(j, w)).len() implies s.has(
                            xv,
                            s.id_at(s.kids(s.slot(j, w))[t] as int),
                        ) by {
                        if before.has(xv, w) {
                            s.lemma_slot(j, w);
                            let c = s.id_at(s.kids(s.slot(j, w))[t] as int);
                            assert(a1.contains((w, c)));
                            if a0.contains((w, c)) {
                                lemma_leads_along_arc(a0, w, c);
                                lemma_leads_to_transitive(a0, xv, w, c);
                                assert(before.has(xv, c));
                            }
                        }
                    }
                    assert forall|y: u64, w: u64| #[trigger]
                        s.has(y, w) <==> (nodes.contains(y) && (if keys.unref().take(it.index() + 1).contains(y) {
                            leads_to(a1, y, w)
                        } else {
                            leads_to(a0, y, w)
                        })) by {
                        if y == xv {
                            if s.has(xv, w) {
                                if before.has(xv, w) {
                                    lemma_leads_monotone(a0, a1, xv, w);
                                } else {
                                    assert(before.has(j, w));
                                    lemma_leads_monotone(a0, a1, j, w);
                                    lemma_leads_to_transitive(a1, xv, j, w);
                                }
                            }
                            if leads_to(a1, xv, w) {
                                lemma_add_arc(a0, i, j, xv, w);
                                if !leads_to(a0, xv, w) {
                                    assert(before.has(j, w));
                                    assert(s.has(j, w));
                                    s.lemma_slot(j, w);
                                    s.lemma_tree_covered(xv, j, s.slot(j, w));
                                }
                            }
                        } else {
                            assert(s.has(y, w) == before.has(y, w));
                            assert(done.contains(y) == keys.unref().take(it.index() + 1).contains(y));
                        }
                    }
                }
            } else {
                proof {
                    lemma_add_arc_unchanged(a0, i, j, xv);
                    assert forall|y: u64, w: u64| #[trigger]
                        self.index.has(y, w) <==> (nodes.contains(y) && (if keys.unref().take(it.index() + 1).contains(y) {
                            leads_to(a1, y, w)
                        } else {
                            leads_to(a0, y, w)
                        })) by {
                        if y != xv {
                            assert(done.contains(y) == keys.unref().take(it.index() + 1).contains(y));
                        }
                    }
                }
            }
        }
        proof {
            assert(keys.unref().take(keys.len() as int) =~= keys.unref());
            assert forall|x: u64| #[trigger] nodes.contains(x) implies keys.unref().take(keys.len() as int).contains(x) by {
                assert(keys.unref().to_set().contains(x));
            }
        }
    }

    /// Whether there is a path from `i` to `j`.
    pub fn is_reachable(&self, i: u64, j: u64) -> (res: bool)
        requires
            self.well_formed(),
        ensures
            res == reachable(self@, i, j),
    {
        self.index.query(i, j)
    }
}

} // verus!
