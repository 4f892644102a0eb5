pub mod merge_cache;
pub mod sub_pattern_buffer;
pub mod sub_pattern_match;
pub mod union_find;

use vstd::prelude::*;
use vstd::std_specs::iter::IteratorSpec;
use std::collections::HashSet;
use crate::pattern::{Pattern, PatternEvent, SubPattern};
use crate::pattern_match::PatternMatch;
use crate::match_event::RawEvents;
use sub_pattern_buffer::{entity_ids_of, entity_set, is_relation_of, map_well_formed, Relation, SubPatternBuffer};
use sub_pattern_match::{built_from, can_merge, is_merge_of, is_sorted, keys_sorted, pattern_ids_below, SubPatternMatch};
use crate::process_layers::composition_layer::match_instance::MatchInstance;
use union_find::UnionFind;

verus! {

broadcast use vstd::std_specs::hash::group_hash_axioms, vstd::seq_lib::group_seq_properties,
    vstd::multiset::group_multiset_axioms;

/// The events of `a` and of `b` touch a common pattern entity.
pub open spec fn share_entity(a: Seq<&PatternEvent>, b: Seq<&PatternEvent>) -> bool {
    exists|x: usize| entity_ids_of(a).contains(x) && #[trigger] entity_ids_of(b).contains(x)
}

/// Check whether two entity (node) lists have any shared element.
fn has_shared_node(entity_ids1: &HashSet<usize>, entity_ids2: &HashSet<usize>) -> (res: bool)
    ensures
        res == exists|x: usize| entity_ids1@.contains(x) && #[trigger] entity_ids2@.contains(x),
{
    let ghost keys = IteratorSpec::remaining(&entity_ids1.iter());
    for x in it: entity_ids1.iter()
        invariant
            it.seq() == keys,
            keys.unref().to_set() == entity_ids1@,
            forall|k: int| 0 <= k < it.index() ==> !entity_ids2@.contains(*#[trigger] keys[k]),
    {
        if entity_ids2.contains(x) {
            proof {
                let k = it.index();
                assert(keys.unref()[k] == *x);
                assert(keys.unref().to_set().contains(*x));
            }
            return true;
        }
    }
    assert forall|x: usize| entity_ids1@.contains(x) implies !entity_ids2@.contains(x) by {
        assert(keys.unref().to_set().contains(x));
        let k = choose|k: int| 0 <= k < keys.unref().len() && keys.unref()[k] == x;
        assert(*keys[k] == x);
    }
    false
}

/// `s` is strictly increasing.
pub open spec fn ascending_ids(s: Seq<usize>) -> bool {
    forall|i: int, j: int| 0 <= i < j < s.len() ==> s[i] < s[j]
}

/// `lists[k]` holds, in increasing order, every other sub-pattern that shares an entity with
/// sub-pattern `k`.
pub open spec fn shared_node_lists_of(lists: Seq<Vec<usize>>, sps: Seq<SubPattern>) -> bool {
    &&& lists.len() == sps.len()
    &&& forall|k: int| 0 <= k < sps.len() ==> ascending_ids(#[trigger] lists[k]@)
    &&& forall|k: int, j: usize| 0 <= k < sps.len() ==> (#[trigger] lists[k]@.contains(j) <==> (j < sps.len() && j != k
        && share_entity(sps[k].events@, sps[j as int].events@)))
}

/// The state of the shared-node lists after the pairs `(a, b)`, `a < b`, before `(i, j)`.
spec fn lists_so_far(lists: Seq<Vec<usize>>, sps: Seq<SubPattern>, i: int, j: int) -> bool {
    &&& lists.len() == sps.len()
    &&& forall|k: int| 0 <= k < sps.len() ==> ascending_ids(#[trigger] lists[k]@)
    &&& forall|k: int, x: int| 0 <= k < sps.len() && 0 <= x < lists[k]@.len() ==> #[trigger] lists[k]@[x] < sps.len()
    &&& forall|k: int, x: int| 0 <= k < sps.len() && k > i && k >= j && 0 <= x < lists[k]@.len() ==> #[trigger] lists[k]@[x] < i
    &&& forall|k: int, x: int| 0 <= k < sps.len() && k > i && k < j && 0 <= x < lists[k]@.len() ==> #[trigger] lists[k]@[x] <= i
    &&& forall|x: int| 0 <= i < sps.len() && 0 <= x < lists[i]@.len() ==> #[trigger] lists[i]@[x] < j
    &&& forall|k: int, x: usize| 0 <= k < sps.len() ==> (#[trigger] lists[k]@.contains(x) <==> (x < sps.len() && x != k
        && share_entity(sps[k].events@, sps[x as int].events@) && ({
            let lo = if k < x { k } else { x as int };
            let hi = if k < x { x as int } else { k };
            lo < i || (lo == i && hi < j)
        })))
}

/// For each sub-pattern, the other sub-patterns that share an entity with it.
pub fn gen_shared_node_lists(sub_patterns: &[SubPattern]) -> (res: Vec<Vec<usize>>)
    ensures
        shared_node_lists_of(res@, sub_patterns@),
{
    let n = sub_patterns.len();
    let ghost sps = sub_patterns@;
    let mut sets: Vec<HashSet<usize>> = Vec::new();
    let mut lists: Vec<Vec<usize>> = Vec::new();
    let mut k: usize = 0;
    while k < n
        invariant
            n == sps.len(),
            sps == sub_patterns@,
            k <= n,
            sets@.len() == k,
            lists@.len() == k,
            forall|m: int| 0 <= m < k ==> (#[trigger] sets@[m])@ == entity_ids_of(sps[m].events@),
            forall|m: int| 0 <= m < k ==> (#[trigger] lists@[m])@.len() == 0,
        decreases n - k,
    {
        sets.push(entity_set(&sub_patterns[k].events));
        lists.push(Vec::new());
        k += 1;
    }
    let mut i: usize = 0;
    while i < n
        invariant
            n == sps.len(),
            sps == sub_patterns@,
            i <= n,
            sets@.len() == n,
            forall|m: int| 0 <= m < n ==> (#[trigger] sets@[m])@ == entity_ids_of(sps[m].events@),
            lists_so_far(lists@, sps, i as int, i + 1),
        decreases n - i,
    {
        let mut j: usize = i + 1;
        while j < n
            invariant
                n == sps.len(),
                sps == sub_patterns@,
                i < n,
                i < j <= n,
                sets@.len() == n,
                forall|m: int| 0 <= m < n ==> (#[trigger] sets@[m])@ == entity_ids_of(sps[m].events@),
                lists_so_far(lists@, sps, i as int, j as int),
            decreases n - j,
        {
            if has_shared_node(&sets[i], &sets[j]) {
                let ghost before = lists@;
                lists[i].push(j);
                lists[j].push(i);
                proof {
                    assert(share_entity(sps[i as int].events@, sps[j as int].events@));
                    assert(share_entity(sps[j as int].events@, sps[i as int].events@));
                    assert forall|k: int| 0 <= k < sps.len() implies ascending_ids(#[trigger] lists@[k]@) by {
                        if k == i {
                            assert(lists@[k]@ == before[k]@.push(j));
                        } else if k == j {
                            assert(lists@[k]@ == before[k]@.push(i));
                        }
                    }
                    assert forall|k: int, x: usize| 0 <= k < sps.len() implies (#[trigger] lists@[k]@.contains(x) <==> (x < sps.len() && x != k
                        && share_entity(sps[k].events@, sps[x as int].events@) && ({
                            let lo = if k < x { k } else { x as int };
                            let hi = if k < x { x as int } else { k };
                            lo < i || (lo == i && hi < j + 1)
                        }))) by {
                        if k == i {
                            assert(lists@[k]@ == before[k]@.push(j));
                        } else if k == j {
                            assert(lists@[k]@ == before[k]@.push(i));
                        } else {
                            assert(lists@[k] == before[k]);
                        }
                    }
                }
            } else {
                proof {
                    assert(!share_entity(sps[i as int].events@, sps[j as int].events@));
                    assert(!share_entity(sps[j as int].events@, sps[i as int].events@));
                }
            }
            j += 1;
        }
        proof {
            let ls = lists@;
            assert forall|k: int, x: usize| 0 <= k < sps.len() implies (#[trigger] ls[k]@.contains(x) <==> (x < sps.len() && x != k
                && share_entity(sps[k].events@, sps[x as int].events@) && ({
                    let lo = if k < x { k } else { x as int };
                    let hi = if k < x { x as int } else { k };
                    lo < i + 1 || (lo == i + 1 && hi < i + 2)
                }))) by {
                if ls[k]@.contains(x) {
                    assert(x < sps.len());
                }
            }
            assert(lists_so_far(ls, sps, i + 1, i + 2));
        }
        i += 1;
    }
    proof {
        let ls = lists@;
        assert forall|k: int, j: usize| 0 <= k < sps.len() implies (#[trigger] ls[k]@.contains(j) <==> (j < sps.len() && j != k
            && share_entity(sps[k].events@, sps[j as int].events@))) by {
            if ls[k]@.contains(j) {
                assert(j < sps.len());
            }
        }
    }
    lists
}

/// `a` comes before `b` in lexicographic order.
pub open spec fn tuple_lt(a: (u32, usize, usize), b: (u32, usize, usize)) -> bool {
    a.0 < b.0 || (a.0 == b.0 && (a.1 < b.1 || (a.1 == b.1 && a.2 < b.2)))
}

proof fn lemma_push_keeps(h: Seq<(u32, usize, usize)>, x: (u32, usize, usize))
    ensures
        h.push(x).contains(x),
        forall|y: (u32, usize, usize)| h.contains(y) ==> #[trigger] h.push(x).contains(y),
{
    assert(h.push(x)[h.len() as int] == x);
    assert forall|y: (u32, usize, usize)| h.contains(y) implies #[trigger] h.push(x).contains(y) by {
        let k = choose|k: int| 0 <= k < h.len() && h[k] == y;
        assert(h.push(x)[k] == y);
    }
}

/// Removes and returns the smallest entry of the queue.
fn pop_min(heap: &mut Vec<(u32, usize, usize)>) -> (res: (u32, usize, usize))
    requires
        old(heap)@.len() > 0,
    ensures
        old(heap)@.contains(res),
        forall|i: int| 0 <= i < old(heap)@.len() ==> !tuple_lt(#[trigger] old(heap)@[i], res),
        final(heap)@.to_multiset() == old(heap)@.to_multiset().remove(res),
        final(heap)@.len() == old(heap)@.len() - 1,
        forall|x: (u32, usize, usize)| final(heap)@.contains(x) ==> old(heap)@.contains(x),
{
    let mut best: usize = 0;
    let mut k: usize = 1;
    while k < heap.len()
        invariant
            heap@ == old(heap)@,
            0 < k <= heap@.len(),
            best < k,
            forall|i: int| 0 <= i < k ==> !tuple_lt(#[trigger] heap@[i], heap@[best as int]),
        decreases heap@.len() - k,
    {
        let a = heap[k];
        let b = heap[best];
        if a.0 < b.0 || (a.0 == b.0 && (a.1 < b.1 || (a.1 == b.1 && a.2 < b.2))) {
            best = k;
        }
        k += 1;
    }
    let ghost s = heap@;
    let res = heap.swap_remove(best);
    proof {
        assert(s[best as int] == res);
        assert(heap@ =~= s.update(best as int, s.last()).drop_last() || heap@ =~= s.remove(best as int));
        assert forall|x: (u32, usize, usize)| heap@.contains(x) implies s.contains(x) by {
            let j = choose|j: int| 0 <= j < heap@.len() && heap@[j] == x;
            if j == best {
                assert(s[s.len() - 1] == x);
            } else {
                assert(s[j] == x);
            }
        }
        let t = s.update(best as int, s.last());
        assert(heap@ =~= t.drop_last());
        vstd::seq_lib::to_multiset_update(s, best as int, s.last());
        assert(t.to_multiset() == s.to_multiset().insert(s.last()).remove(res));
        assert(t =~= t.drop_last().push(t.last()));
        assert(t.last() == s.last());
        vstd::seq_lib::to_multiset_build(t.drop_last(), t.last());
        assert(heap@.to_multiset().insert(s.last()) == s.to_multiset().insert(s.last()).remove(res));
        assert(s.to_multiset().count(res) > 0) by {
            vstd::seq_lib::to_multiset_contains(s, res);
        }
        let hm = heap@.to_multiset();
        let sm = s.to_multiset();
        assert forall|v: (u32, usize, usize)| hm.count(v) == sm.remove(res).count(v) by {
            assert(hm.insert(s.last()).count(v) == sm.insert(s.last()).remove(res).count(v));
            assert(sm.insert(s.last()).count(res) > 0);
        }
        assert(hm =~= sm.remove(res));
    }
    res
}

/// Pairs two buffers as siblings: both get the relation between them, and their parent, a new
/// buffer holding both, is pushed as `new_buffer_id`.
fn create_buffer_pair(buffer_id1: usize, buffer_id2: usize, new_buffer_id: usize, pattern: &Pattern, sub_pattern_buffers: &mut Vec<SubPatternBuffer>)
    requires
        buffer_id1 < old(sub_pattern_buffers)@.len(),
        buffer_id2 < old(sub_pattern_buffers)@.len(),
        buffer_id1 != buffer_id2,
        pattern.order.targets_are_events(),
    ensures
        final(sub_pattern_buffers)@.len() == old(sub_pattern_buffers)@.len() + 1,
        forall|k: int| 0 <= k < old(sub_pattern_buffers)@.len() && k != buffer_id1 && k != buffer_id2
            ==> #[trigger] final(sub_pattern_buffers)@[k] == old(sub_pattern_buffers)@[k],
        ({
            let b1 = old(sub_pattern_buffers)@[buffer_id1 as int];
            let b2 = old(sub_pattern_buffers)@[buffer_id2 as int];
            let n1 = final(sub_pattern_buffers)@[buffer_id1 as int];
            let n2 = final(sub_pattern_buffers)@[buffer_id2 as int];
            let p = final(sub_pattern_buffers)@[old(sub_pattern_buffers)@.len() as int];
            &&& n1 == (SubPatternBuffer { relation: n1.relation, ..b1 })
            &&& n2 == (SubPatternBuffer { relation: n2.relation, ..b2 })
            &&& is_relation_of(n1.relation, *pattern, b1, b2)
            &&& is_relation_of(n2.relation, *pattern, b1, b2)
            &&& p.id == new_buffer_id
            &&& p.node_id_list@ == b1.node_id_list@.union(b2.node_id_list@)
            &&& p.edge_id_list@ == b1.edge_id_list@.union(b2.edge_id_list@)
            &&& p.buffer@.len() == 0
            &&& p.new_match_buffer@.len() == 0
            &&& p.max_num_entities == b1.max_num_entities
            &&& p.max_num_events == b1.max_num_events
        }),
{
    let relations = SubPatternBuffer::generate_relations(
        pattern,
        &sub_pattern_buffers[buffer_id1],
        &sub_pattern_buffers[buffer_id2],
    );
    sub_pattern_buffers[buffer_id1].relation = relations.clone();
    sub_pattern_buffers[buffer_id2].relation = relations;
    let merged = SubPatternBuffer::merge_buffers(
        &sub_pattern_buffers[buffer_id1],
        &sub_pattern_buffers[buffer_id2],
        new_buffer_id,
    );
    sub_pattern_buffers.push(merged);
}

/// The number of buffers below `len` not yet paired with a sibling.
pub open spec fn unmerged_count(merged: Seq<bool>, len: int) -> int
    decreases len,
{
    if len <= 0 {
        0
    } else {
        unmerged_count(merged, len - 1) + if !merged[len - 1] { 1int } else { 0int }
    }
}

proof fn lemma_count_update(merged: Seq<bool>, len: int, i: int)
    requires
        0 <= i < len <= merged.len(),
        !merged[i],
    ensures
        unmerged_count(merged.update(i, true), len) == unmerged_count(merged, len) - 1,
    decreases len,
{
    if len - 1 > i {
        lemma_count_update(merged, len - 1, i);
    } else {
        lemma_count_same(merged, len - 1, i);
    }
}

proof fn lemma_count_same(merged: Seq<bool>, len: int, i: int)
    requires
        0 <= len <= i < merged.len(),
    ensures
        unmerged_count(merged.update(i, true), len) == unmerged_count(merged, len),
    decreases len,
{
    if len > 0 {
        lemma_count_same(merged, len - 1, i);
    }
}

proof fn lemma_count_two(merged: Seq<bool>, len: int, i: int, j: int)
    requires
        0 <= i < len <= merged.len(),
        0 <= j < len,
        i != j,
        !merged[i],
        !merged[j],
    ensures
        unmerged_count(merged, len) >= 2,
    decreases len,
{
    lemma_count_nonneg(merged, len - 1);
    if i < len - 1 && j < len - 1 {
        lemma_count_two(merged, len - 1, i, j);
    } else if i == len - 1 {
        lemma_count_one(merged, len - 1, j);
    } else {
        lemma_count_one(merged, len - 1, i);
    }
}

proof fn lemma_count_one(merged: Seq<bool>, len: int, i: int)
    requires
        0 <= i < len <= merged.len(),
        !merged[i],
    ensures
        unmerged_count(merged, len) >= 1,
    decreases len,
{
    lemma_count_nonneg(merged, len - 1);
    if i < len - 1 {
        lemma_count_one(merged, len - 1, i);
    }
}

proof fn lemma_count_none_merged(merged: Seq<bool>, len: int)
    requires
        0 <= len <= merged.len(),
        forall|x: int| 0 <= x < len ==> !#[trigger] merged[x],
    ensures
        unmerged_count(merged, len) == len,
    decreases len,
{
    if len > 0 {
        lemma_count_none_merged(merged, len - 1);
    }
}

proof fn lemma_count_nonneg(merged: Seq<bool>, len: int)
    ensures
        unmerged_count(merged, len) >= 0,
    decreases len,
{
    if len > 0 {
        lemma_count_nonneg(merged, len - 1);
    }
}

proof fn lemma_count_all_merged(merged: Seq<bool>, len: int)
    requires
        0 < len <= merged.len(),
        unmerged_count(merged, len) == 1,
        !merged[len - 1],
    ensures
        forall|x: int| 0 <= x < len - 1 ==> #[trigger] merged[x],
{
    assert forall|x: int| 0 <= x < len - 1 implies #[trigger] merged[x] by {
        if !merged[x] {
            lemma_count_two(merged, len, x, len - 1);
        }
    }
}

proof fn lemma_cross_orders_symmetric(deps: Seq<(int, int)>, e1: Set<usize>, e2: Set<usize>)
    ensures
        sub_pattern_buffer::cross_orders(deps, e1, e2) == sub_pattern_buffer::cross_orders(deps, e2, e1),
    decreases deps.len(),
{
    if deps.len() > 0 {
        lemma_cross_orders_symmetric(deps.drop_last(), e1, e2);
    }
}

/// The two buffers hold a common pattern entity.
pub open spec fn share_node(a: SubPatternBuffer, b: SubPatternBuffer) -> bool {
    exists|u: usize| a.node_id_list@.contains(u) && #[trigger] b.node_id_list@.contains(u)
}

/// Every pair in the heap names two existing buffers that hold a common pattern entity.
pub open spec fn heap_shares(bufs: Seq<SubPatternBuffer>, h: Seq<(u32, usize, usize)>) -> bool {
    forall|e: (u32, usize, usize)|
        #[trigger] h.contains(e) ==> e.1 < bufs.len() && e.2 < bufs.len() && share_node(bufs[e.1 as int], bufs[e.2 as int])
}

/// The entities of every sub-pattern buffer are among those of the root of its tree.
pub open spec fn leaves_under_roots(bufs: Seq<SubPatternBuffer>, roots: Seq<i64>, n: int) -> bool {
    forall|a: int|
        0 <= a < n ==> (#[trigger] bufs[a]).node_id_list@.subset_of(bufs[union_find::root_of(roots, a)].node_id_list@)
}

/// The buffer `x` has been paired: its sibling points back at it, they share a parent above
/// both that holds the entities and events of both, `x` knows the relation between them, and
/// the two hold a common pattern entity.
pub open spec fn pair_ok(
    pattern: Pattern,
    bufs: Seq<SubPatternBuffer>,
    sib: Seq<usize>,
    par: Seq<usize>,
    x: int,
) -> bool {
    let y = sib[x] as int;
    let p = par[x] as int;
    &&& x < p < bufs.len()
    &&& 0 <= y < bufs.len()
    &&& y != x
    &&& sib[y] == x
    &&& par[y] == p
    &&& y < p
    &&& bufs[p].node_id_list@ == bufs[x].node_id_list@.union(bufs[y].node_id_list@)
    &&& bufs[p].edge_id_list@ == bufs[x].edge_id_list@.union(bufs[y].edge_id_list@)
    &&& is_relation_of(bufs[x].relation, pattern, bufs[x], bufs[y])
    &&& share_node(bufs[x], bufs[y])
}

/// A set of sub-pattern positions that holds, with each one, every one sharing an entity
/// with it.
pub open spec fn closed_under_sharing(sps: Seq<SubPattern>, s: Set<int>) -> bool {
    forall|a: int, b: int|
        #![trigger s.contains(a), s.contains(b)]
        0 <= a < sps.len() && 0 <= b < sps.len() && s.contains(a) && share_entity(sps[a].events@, sps[b].events@)
            ==> s.contains(b)
}

/// The sub-patterns are linked by the entities they share: a set of them that holds the first
/// and is closed under sharing holds all of them.
pub open spec fn linked(sps: Seq<SubPattern>) -> bool {
    forall|s: Set<int>|
        #[trigger] closed_under_sharing(sps, s) && s.contains(0) ==> forall|a: int| 0 <= a < sps.len() ==> s.contains(a)
}

/// A pair in the heap joins the buffers `x` and `y`, in either order.
pub open spec fn covered(h: Seq<(u32, usize, usize)>, x: int, y: int) -> bool {
    exists|e: (u32, usize, usize)| #[trigger] h.contains(e) && ((e.1 == x && e.2 == y) || (e.1 == y && e.2 == x))
}

/// Any two sub-patterns that share an entity are in one tree of the forest, or a pair in the
/// heap joins their trees, or one of them is in the tree of `nb`.
pub open spec fn pending(lists: Seq<Vec<usize>>, n: int, roots: Seq<i64>, h: Seq<(u32, usize, usize)>, nb: int) -> bool {
    forall|a: int, b: usize|
        0 <= a < n && #[trigger] lists[a]@.contains(b) ==> {
            let ra = union_find::root_of(roots, a);
            let rb = union_find::root_of(roots, b as int);
            ra == rb || covered(h, ra, rb) || ra == nb || rb == nb
        }
}

/// Every tree among the first `len` buffers holds a sub-pattern buffer.
pub open spec fn rooted_leaves(roots: Seq<i64>, n: int, len: int) -> bool {
    forall|x: int| 0 <= x < len && roots[x] < 0 ==> #[trigger] has_leaf(roots, n, x)
}

/// The tree of `x` holds a sub-pattern buffer.
pub open spec fn has_leaf(roots: Seq<i64>, n: int, x: int) -> bool {
    exists|a: int| 0 <= a < n && #[trigger] union_find::root_of(roots, a) == x
}

proof fn lemma_covered_grows(h1: Seq<(u32, usize, usize)>, h2: Seq<(u32, usize, usize)>, x: int, y: int)
    requires
        covered(h1, x, y),
        forall|e: (u32, usize, usize)| h1.contains(e) ==> #[trigger] h2.contains(e),
    ensures
        covered(h2, x, y),
{
    let e = choose|e: (u32, usize, usize)| #[trigger] h1.contains(e) && ((e.1 == x && e.2 == y) || (e.1 == y && e.2 == x));
    assert(h2.contains(e));
}

/// Dropping from the heap a pair with an end that is no root keeps every pending pair joined.
proof fn lemma_pop_stale(
    lists: Seq<Vec<usize>>,
    n: int,
    roots: Seq<i64>,
    h0: Seq<(u32, usize, usize)>,
    h1: Seq<(u32, usize, usize)>,
    e: (u32, usize, usize),
)
    requires
        pending(lists, n, roots, h0, -1),
        h1.to_multiset() == h0.to_multiset().remove(e),
        forall|a: int| 0 <= a < roots.len() ==> roots[#[trigger] union_find::root_of(roots, a)] < 0,
        n <= roots.len(),
        forall|a: int, b: usize| 0 <= a < n && #[trigger] lists[a]@.contains(b) ==> b < n,
        roots[e.1 as int] >= 0 || roots[e.2 as int] >= 0,
        e.1 < roots.len(),
        e.2 < roots.len(),
        union_find::forest_ok(roots),
    ensures
        pending(lists, n, roots, h1, -1),
{
    broadcast use vstd::multiset::group_multiset_axioms;
    assert forall|a: int, b: usize| 0 <= a < n && #[trigger] lists[a]@.contains(b) implies {
        let ra = union_find::root_of(roots, a);
        let rb = union_find::root_of(roots, b as int);
        ra == rb || covered(h1, ra, rb) || ra == -1 || rb == -1
    } by {
        let ra = union_find::root_of(roots, a);
        let rb = union_find::root_of(roots, b as int);
        assert(b < n);
        union_find::lemma_root_of(roots, a);
        union_find::lemma_root_of(roots, b as int);
        assert(roots[union_find::root_of(roots, a)] < 0);
        assert(roots[union_find::root_of(roots, b as int)] < 0);
        if ra != rb {
            let f = choose|f: (u32, usize, usize)| #[trigger] h0.contains(f) && ((f.1 == ra && f.2 == rb) || (f.1 == rb && f.2 == ra));
            assert(f != e);
            h0.to_multiset_ensures();
            h1.to_multiset_ensures();
            assert(h0.to_multiset().count(f) > 0);
            assert(h1.to_multiset().count(f) > 0);
            assert(h1.contains(f));
        }
    }
}

/// Merging the two roots of a popped pair under `nb` joins every pair that the popped one
/// joined; the pairs left pending are those with an end in the tree of `nb`.
proof fn lemma_pop_merge(
    lists: Seq<Vec<usize>>,
    n: int,
    roots: Seq<i64>,
    roots2: Seq<i64>,
    h0: Seq<(u32, usize, usize)>,
    h1: Seq<(u32, usize, usize)>,
    e: (u32, usize, usize),
    nb: int,
)
    requires
        pending(lists, n, roots, h0, -1),
        h1.to_multiset() == h0.to_multiset().remove(e),
        n <= roots.len(),
        roots2.len() == roots.len(),
        union_find::forest_ok(roots),
        nb >= 0,
        forall|a: int, b: usize| 0 <= a < n && #[trigger] lists[a]@.contains(b) ==> b < n,
        forall|x: int| 0 <= x < roots.len() ==> #[trigger] union_find::root_of(roots2, x) == (
            if union_find::root_of(roots, x) == e.1 || union_find::root_of(roots, x) == e.2 {
                nb
            } else {
                union_find::root_of(roots, x)
            }),
    ensures
        pending(lists, n, roots2, h1, nb),
{
    broadcast use vstd::multiset::group_multiset_axioms;
    assert forall|a: int, b: usize| 0 <= a < n && #[trigger] lists[a]@.contains(b) implies {
        let ra = union_find::root_of(roots2, a);
        let rb = union_find::root_of(roots2, b as int);
        ra == rb || covered(h1, ra, rb) || ra == nb || rb == nb
    } by {
        let ra0 = union_find::root_of(roots, a);
        let rb0 = union_find::root_of(roots, b as int);
        let ra = union_find::root_of(roots2, a);
        let rb = union_find::root_of(roots2, b as int);
        assert(b < n);
        union_find::lemma_root_of(roots, a);
        union_find::lemma_root_of(roots, b as int);
        assert(union_find::root_of(roots2, a) == (if ra0 == e.1 || ra0 == e.2 { nb } else { ra0 }));
        assert(union_find::root_of(roots2, b as int) == (if rb0 == e.1 || rb0 == e.2 { nb } else { rb0 }));
        if ra != rb && ra != nb && rb != nb {
            assert(ra == ra0 && rb == rb0);
            let f = choose|f: (u32, usize, usize)| #[trigger] h0.contains(f) && ((f.1 == ra0 && f.2 == rb0) || (f.1 == rb0 && f.2 == ra0));
            assert(f != e);
            h0.to_multiset_ensures();
            h1.to_multiset_ensures();
            assert(h0.to_multiset().count(f) > 0);
            assert(h1.to_multiset().count(f) > 0);
            assert(h1.contains(f));
        }
    }
}

/// Every sub-pattern below `k` whose tree is not that of `nb`, but which shares an entity with
/// one in it, has its tree joined to that of `nb` by a pair in the heap.
pub open spec fn joined_below(lists: Seq<Vec<usize>>, roots: Seq<i64>, h: Seq<(u32, usize, usize)>, nb: int, k: int) -> bool {
    forall|b: int|
        0 <= b < k && union_find::root_of(roots, b) != nb && (exists|t: usize|
            #[trigger] lists[b]@.contains(t) && union_find::root_of(roots, t as int) == nb) ==> covered(
            h,
            nb,
            #[trigger] union_find::root_of(roots, b),
        )
}

/// One more sub-pattern is handled: its tree is `nb`'s, or joined to it in the heap, or none
/// of the sub-patterns sharing an entity with it is in the tree of `nb`.
proof fn lemma_k_step(
    lists: Seq<Vec<usize>>,
    rk: Seq<i64>,
    heap_k: Seq<(u32, usize, usize)>,
    heap: Seq<(u32, usize, usize)>,
    nb: int,
    k: int,
    cur_root: int,
)
    requires
        0 <= k < lists.len(),
        joined_below(lists, rk, heap_k, nb, k),
        forall|e: (u32, usize, usize)| heap_k.contains(e) ==> #[trigger] heap.contains(e),
        cur_root == union_find::root_of(rk, k),
        cur_root == nb || covered(heap, nb, cur_root) || forall|t: int|
            0 <= t < lists[k]@.len() ==> #[trigger] union_find::root_of(rk, lists[k]@[t] as int) != nb,
    ensures
        joined_below(lists, rk, heap, nb, k + 1),
{
    assert forall|b: int|
        0 <= b < k + 1 && union_find::root_of(rk, b) != nb && (exists|t: usize|
            #[trigger] lists[b]@.contains(t) && union_find::root_of(rk, t as int) == nb) implies covered(
            heap,
            nb,
            #[trigger] union_find::root_of(rk, b),
        ) by {
        if b < k {
            lemma_covered_grows(heap_k, heap, nb, union_find::root_of(rk, b));
        } else {
            let t = choose|t: usize| #[trigger] lists[b]@.contains(t) && union_find::root_of(rk, t as int) == nb;
            if !covered(heap, nb, cur_root) {
                let ti = choose|ti: int| 0 <= ti < lists[b]@.len() && lists[b]@[ti] == t;
                assert(union_find::root_of(rk, lists[k]@[ti] as int) != nb);
            }
        }
    }
}

/// The forest `r` has the roots of `r0`, and the same buffers are roots.
pub open spec fn same_roots(r: Seq<i64>, r0: Seq<i64>) -> bool {
    &&& r.len() == r0.len()
    &&& forall|x: int| 0 <= x < r0.len() ==> #[trigger] union_find::root_of(r, x) == union_find::root_of(r0, x)
    &&& forall|x: int| 0 <= x < r0.len() ==> (#[trigger] r[x] < 0 <==> r0[x] < 0)
}

/// Once every sub-pattern whose tree is not that of `nb` but which shares an entity with one
/// in it has its tree joined to that of `nb` by a pair in the heap, nothing is left pending.
proof fn lemma_pending_done(
    lists: Seq<Vec<usize>>,
    sps: Seq<SubPattern>,
    roots: Seq<i64>,
    h0: Seq<(u32, usize, usize)>,
    h1: Seq<(u32, usize, usize)>,
    nb: int,
)
    requires
        shared_node_lists_of(lists, sps),
        sps.len() <= usize::MAX,
        pending(lists, sps.len() as int, roots, h0, nb),
        forall|e: (u32, usize, usize)| h0.contains(e) ==> #[trigger] h1.contains(e),
        joined_below(lists, roots, h1, nb, sps.len() as int),
    ensures
        pending(lists, sps.len() as int, roots, h1, -1),
{
    let n = sps.len() as int;
    assert forall|a: int, b: usize| 0 <= a < n && #[trigger] lists[a]@.contains(b) implies {
        let ra = union_find::root_of(roots, a);
        let rb = union_find::root_of(roots, b as int);
        ra == rb || covered(h1, ra, rb) || ra == -1 || rb == -1
    } by {
        let ra = union_find::root_of(roots, a);
        let rb = union_find::root_of(roots, b as int);
        assert(b < n && b != a && share_entity(sps[a].events@, sps[b as int].events@));
        if ra != rb {
            if ra != nb && rb != nb {
                lemma_covered_grows(h0, h1, ra, rb);
            } else if ra == nb {
                // the tree of b is joined to that of nb
                let au = a as usize;
                assert(au as int == a);
                assert(share_entity(sps[b as int].events@, sps[au as int].events@)) by {
                    let x = choose|x: usize| entity_ids_of(sps[a].events@).contains(x) && #[trigger] entity_ids_of(sps[b as int].events@).contains(x);
                    assert(entity_ids_of(sps[b as int].events@).contains(x) && entity_ids_of(sps[au as int].events@).contains(x));
                }
                assert(lists[b as int]@.contains(au));
                assert(union_find::root_of(roots, au as int) == nb);
                assert(covered(h1, nb, rb));
                let f = choose|f: (u32, usize, usize)| #[trigger] h1.contains(f) && ((f.1 == nb && f.2 == rb) || (f.1 == rb && f.2 == nb));
                assert(covered(h1, ra, rb));
            } else {
                assert(lists[a]@.contains(b) && union_find::root_of(roots, b as int) == nb);
                assert(covered(h1, nb, ra));
                let f = choose|f: (u32, usize, usize)| #[trigger] h1.contains(f) && ((f.1 == nb && f.2 == ra) || (f.1 == ra && f.2 == nb));
                assert(covered(h1, ra, rb));
            }
        }
    }
}

/// The pending pairs depend on the forest only through the roots.
proof fn lemma_pending_same_roots(
    lists: Seq<Vec<usize>>,
    n: int,
    r1: Seq<i64>,
    r2: Seq<i64>,
    h: Seq<(u32, usize, usize)>,
    nb: int,
)
    requires
        pending(lists, n, r1, h, nb),
        n <= r1.len(),
        forall|a: int, b: usize| 0 <= a < n && #[trigger] lists[a]@.contains(b) ==> b < n,
        forall|x: int| 0 <= x < r1.len() ==> #[trigger] union_find::root_of(r2, x) == union_find::root_of(r1, x),
    ensures
        pending(lists, n, r2, h, nb),
{
    assert forall|a: int, b: usize| 0 <= a < n && #[trigger] lists[a]@.contains(b) implies {
        let ra = union_find::root_of(r2, a);
        let rb = union_find::root_of(r2, b as int);
        ra == rb || covered(h, ra, rb) || ra == nb || rb == nb
    } by {
        assert(union_find::root_of(r2, a) == union_find::root_of(r1, a));
        assert(union_find::root_of(r2, b as int) == union_find::root_of(r1, b as int));
    }
}

/// The trees keep their leaves when the roots and which buffers are roots stay the same.
proof fn lemma_leaves_same_roots(r1: Seq<i64>, r2: Seq<i64>, n: int, len: int)
    requires
        rooted_leaves(r1, n, len),
        len <= r1.len(),
        n <= r1.len(),
        r2.len() == r1.len(),
        forall|x: int| 0 <= x < r1.len() ==> #[trigger] union_find::root_of(r2, x) == union_find::root_of(r1, x),
        forall|x: int| 0 <= x < r1.len() ==> (#[trigger] r2[x] < 0 <==> r1[x] < 0),
    ensures
        rooted_leaves(r2, n, len),
{
    assert forall|x: int| 0 <= x < len && r2[x] < 0 implies #[trigger] has_leaf(r2, n, x) by {
        assert(r1[x] < 0);
        assert(has_leaf(r1, n, x));
        let a = choose|a: int| 0 <= a < n && #[trigger] union_find::root_of(r1, a) == x;
        assert(union_find::root_of(r2, a) == x);
    }
}

/// At most one position below `len` is unmerged when all unmerged ones are `r`.
proof fn lemma_count_at_most_one(merged: Seq<bool>, len: int, r: int)
    requires
        0 <= len <= merged.len(),
        forall|y: int| 0 <= y < len && !merged[y] ==> y == r,
    ensures
        unmerged_count(merged, len) <= (if 0 <= r < len { 1int } else { 0int }),
    decreases len,
{
    if len > 0 {
        lemma_count_at_most_one(merged, len - 1, r);
    }
}

/// With nothing pending and linked sub-patterns, the forest below `len` is one tree.
proof fn lemma_one_tree(
    lists: Seq<Vec<usize>>,
    sps: Seq<SubPattern>,
    roots: Seq<i64>,
    merged: Seq<bool>,
    len: int,
)
    requires
        shared_node_lists_of(lists, sps),
        linked(sps),
        sps.len() >= 1,
        sps.len() <= usize::MAX,
        sps.len() <= len <= merged.len(),
        merged.len() == roots.len(),
        pending(lists, sps.len() as int, roots, Seq::empty(), -1),
        rooted_leaves(roots, sps.len() as int, len),
        forall|x: int| 0 <= x < len ==> (#[trigger] merged[x] <==> roots[x] >= 0),
        forall|a: int| 0 <= a < sps.len() ==> union_find::root_of(roots, a) >= 0,
    ensures
        unmerged_count(merged, len) <= 1,
{
    let n = sps.len() as int;
    let r = union_find::root_of(roots, 0);
    let s = Set::new(|a: int| 0 <= a < n && union_find::root_of(roots, a) == r);
    assert(closed_under_sharing(sps, s)) by {
        assert forall|a: int, b: int|
            #![trigger s.contains(a), s.contains(b)]
            0 <= a < n && 0 <= b < n && s.contains(a) && share_entity(sps[a].events@, sps[b].events@) implies s.contains(b) by {
            if a != b {
                let bu = b as usize;
                assert(bu as int == b);
                assert(lists[a]@.contains(bu));
                let ra = union_find::root_of(roots, a);
                let rb = union_find::root_of(roots, b);
                if ra != rb {
                    assert(covered(Seq::empty(), ra, rb));
                    let f = choose|f: (u32, usize, usize)| #[trigger] Seq::<(u32, usize, usize)>::empty().contains(f) && ((f.1 == ra && f.2 == rb) || (f.1 == rb && f.2 == ra));
                    assert(false);
                }
            }
        }
    }
    assert(s.contains(0));
    assert forall|y: int| 0 <= y < len && !merged[y] implies y == r by {
        assert(roots[y] < 0);
        assert(has_leaf(roots, n, y));
        let a = choose|a: int| 0 <= a < n && #[trigger] union_find::root_of(roots, a) == y;
        assert(s.contains(a));
    }
    lemma_count_at_most_one(merged, len, r);
}

/// The shape of the buffer tree: the first `n` buffers belong to the sub-patterns, and every
/// buffer with a parent above it is properly paired.
pub open spec fn tree_ok(
    pattern: Pattern,
    sps: Seq<SubPattern>,
    bufs: Seq<SubPatternBuffer>,
    sib: Seq<usize>,
    par: Seq<usize>,
) -> bool {
    let n = sps.len();
    &&& n >= 1
    &&& sib.len() == 2 * n - 1
    &&& par.len() == 2 * n - 1
    &&& n <= bufs.len() <= 2 * n - 1
    &&& forall|x: int| 0 <= x < n ==> {
        &&& (#[trigger] bufs[x]).node_id_list@ == entity_ids_of(sps[x].events@)
        &&& bufs[x].edge_id_list@ == sub_pattern_buffer::event_ids_of(sps[x].events@)
    }
    &&& forall|x: int| 0 <= x < bufs.len() ==> {
        &&& (#[trigger] bufs[x]).id == x
        &&& bufs[x].max_num_entities == pattern.entities@.len()
        &&& bufs[x].max_num_events == pattern.events@.len()
    }
    &&& forall|x: int| 0 <= x < bufs.len() && x < #[trigger] par[x] ==> pair_ok(pattern, bufs, sib, par, x)
}

/// The layer that joins sub-pattern matches into pattern matches.
pub struct JoinLayer<'p> {
    /// The behavioral pattern.
    pub pattern: &'p Pattern,
    /// Binary-tree-structured buffers that store sub-pattern matches.
    ///
    /// A sub-pattern match in a parent node is joined from sub-patterns in its two children buffers.
    pub sub_pattern_buffers: Vec<SubPatternBuffer>,
    /// See `clear_expired()`.
    pub window_size: u64,
    /// Complete pattern matches.
    pub full_match: Vec<PatternMatch>,
    /// The sibling buffer of buffer `x` is `sibling_id_map[x]`.
    pub sibling_id_map: Vec<usize>,
    /// The parent buffer of buffer `x` is `parent_id_map[x]`.
    pub parent_id_map: Vec<usize>,
}

/// The union-find forest over the first `len` buffers: parents exist, heights stay within the
/// number of merges, and buffers not created yet are untouched.
pub open spec fn uf_ok(roots: Seq<i64>, len: int, n: int) -> bool {
    &&& union_find::forest_ok(roots)
    &&& forall|x: int| 0 <= x < roots.len() ==> {
        &&& #[trigger] roots[x] >= -(len - n + 1)
        &&& (roots[x] >= 0 ==> roots[x] < len)
        &&& (x >= len ==> roots[x] == -1)
    }
}

/// A buffer is merged exactly when it has a parent in the forest and in the tree, and then its
/// sibling is merged too.
pub open spec fn marks_ok(merged: Seq<bool>, roots: Seq<i64>, par: Seq<usize>, sib: Seq<usize>, len: int) -> bool {
    forall|x: int|
        #![trigger merged[x]]
        #![trigger roots[x]]
        #![trigger par[x]]
        0 <= x < merged.len() ==> {
            &&& (merged[x] <==> roots[x] >= 0)
            &&& (merged[x] <==> x < par[x])
            &&& (x >= len ==> par[x] == 0)
            &&& (merged[x] ==> merged[sib[x] as int])
            &&& (!merged[x] ==> sib[x] == 0)
        }
}

/// Path compression keeps the forest invariants and which buffers are roots.
proof fn lemma_compress_keeps(r0: Seq<i64>, r1: Seq<i64>, len: int, n: int)
    requires
        uf_ok(r0, len, n),
        union_find::forest_ok(r1),
        r1.len() == r0.len(),
        forall|x: int|
            0 <= x < r0.len() ==> {
                &&& union_find::root_of(r1, x) == union_find::root_of(r0, x)
                &&& (r0[x] < 0 ==> #[trigger] r1[x] == r0[x])
                &&& (r0[x] >= 0 ==> r1[x] == r0[x] || r1[x] == union_find::root_of(r0, x))
            },
    ensures
        uf_ok(r1, len, n),
        forall|x: int| 0 <= x < r0.len() ==> (#[trigger] r1[x] >= 0 <==> r0[x] >= 0),
{
    assert forall|x: int| 0 <= x < r1.len() implies {
        &&& #[trigger] r1[x] >= -(len - n + 1)
        &&& (r1[x] >= 0 ==> r1[x] < len)
        &&& (x >= len ==> r1[x] == -1)
        &&& (r1[x] >= 0 <==> r0[x] >= 0)
    } by {
        assert(r0[x] >= -(len - n + 1));
        if r0[x] >= 0 {
            union_find::lemma_root_of(r0, x);
            union_find::lemma_root_below(r0, x, len);
        }
    }
}

impl<'p> JoinLayer<'p> {
    /// Builds the tree of sub-pattern buffers: repeatedly pairs the two buffers that share an
    /// entity and give the lowest parent, until no such pair is left.
    pub fn new(pattern: &'p Pattern, sub_patterns: &[SubPattern<'p>], window_size: u64) -> (res: Self)
        requires
            sub_patterns@.len() >= 1,
            2 * sub_patterns@.len() < u32::MAX,
            pattern.order.targets_are_events(),
        ensures
            res.pattern == pattern,
            res.window_size == window_size,
            res.full_match@.len() == 0,
            tree_ok(*pattern, sub_patterns@, res.sub_pattern_buffers@, res.sibling_id_map@, res.parent_id_map@),
            forall|x: int| 0 <= x < res.sub_pattern_buffers@.len() ==> {
                &&& (#[trigger] res.sub_pattern_buffers@[x]).buffer@.len() == 0
                &&& res.sub_pattern_buffers@[x].new_match_buffer@.len() == 0
            },
            res.sub_pattern_buffers@.len() == 2 * sub_patterns@.len() - 1 ==> forall|x: int|
                0 <= x < res.sub_pattern_buffers@.len() - 1 ==> x < #[trigger] res.parent_id_map@[x],
            res.sub_pattern_buffers@.len() == 2 * sub_patterns@.len() - 1 && pattern.well_formed() ==> res.runtime_ok(),
            linked(sub_patterns@) ==> res.sub_pattern_buffers@.len() == 2 * sub_patterns@.len() - 1,
            forall|x: int| 0 <= x < res.sibling_id_map@.len() && !(x < #[trigger] res.parent_id_map@[x]) ==> res.sibling_id_map@[x] == 0,
            res.sub_pattern_buffers@.len() == 2 * sub_patterns@.len() - 1 ==> res.sub_pattern_buffers@[0].node_id_list@.subset_of(
                res.sub_pattern_buffers@[2 * sub_patterns@.len() - 2].node_id_list@),
    {
        let n = sub_patterns.len();
        let buffer_len = 2 * n - 1;
        let ghost sps = sub_patterns@;
        let mut sub_pattern_buffers: Vec<SubPatternBuffer> = Vec::new();
        let mut sibling_id_map: Vec<usize> = Vec::new();
        let mut parent_id_map: Vec<usize> = Vec::new();
        let mut merged: Vec<bool> = Vec::new();
        let mut k: usize = 0;
        while k < buffer_len
            invariant
                k <= buffer_len,
                sibling_id_map@.len() == k,
                parent_id_map@.len() == k,
                merged@.len() == k,
                forall|x: int| 0 <= x < k ==> #[trigger] parent_id_map@[x] == 0,
                forall|x: int| 0 <= x < k ==> #[trigger] sibling_id_map@[x] == 0,
                forall|x: int| 0 <= x < k ==> !#[trigger] merged@[x],
            decreases buffer_len - k,
        {
            sibling_id_map.push(0);
            parent_id_map.push(0);
            merged.push(false);
            k += 1;
        }
        let mut i: usize = 0;
        while i < n
            invariant
                n == sps.len(),
                sps == sub_patterns@,
                i <= n,
                buffer_len == 2 * n - 1,
                sibling_id_map@.len() == buffer_len,
                parent_id_map@.len() == buffer_len,
                merged@.len() == buffer_len,
                forall|x: int| 0 <= x < buffer_len ==> #[trigger] parent_id_map@[x] == 0,
                forall|x: int| 0 <= x < buffer_len ==> #[trigger] sibling_id_map@[x] == 0,
                forall|x: int| 0 <= x < buffer_len ==> !#[trigger] merged@[x],
                sub_pattern_buffers@.len() == i,
                forall|x: int| 0 <= x < i ==> {
                    &&& (#[trigger] sub_pattern_buffers@[x]).node_id_list@ == entity_ids_of(sps[x].events@)
                    &&& sub_pattern_buffers@[x].edge_id_list@ == sub_pattern_buffer::event_ids_of(sps[x].events@)
                    &&& sub_pattern_buffers@[x].id == x
                    &&& sub_pattern_buffers@[x].max_num_entities == pattern.entities@.len()
                    &&& sub_pattern_buffers@[x].max_num_events == pattern.events@.len()
                    &&& sub_pattern_buffers@[x].buffer@.len() == 0
                    &&& sub_pattern_buffers@[x].new_match_buffer@.len() == 0
                },
            decreases n - i,
        {
            sub_pattern_buffers.push(
                SubPatternBuffer::new(i, &sub_patterns[i], pattern.entities.len(), pattern.events.len()),
            );
            i += 1;
        }

        let ghost bufs_init = sub_pattern_buffers@;
        let shared_node_lists = gen_shared_node_lists(sub_patterns);
        let mut min_heap: Vec<(u32, usize, usize)> = Vec::new();
        let mut a: usize = 0;
        while a < n
            invariant
                n == sps.len(),
                a <= n,
                sub_pattern_buffers@ == bufs_init,
                sibling_id_map@.len() == buffer_len,
                parent_id_map@.len() == buffer_len,
                merged@.len() == buffer_len,
                forall|x: int| 0 <= x < buffer_len ==> #[trigger] parent_id_map@[x] == 0,
                forall|x: int| 0 <= x < buffer_len ==> #[trigger] sibling_id_map@[x] == 0,
                forall|x: int| 0 <= x < buffer_len ==> !#[trigger] merged@[x],
                shared_node_lists_of(shared_node_lists@, sps),
                forall|e: (u32, usize, usize)| #[trigger] min_heap@.contains(e) ==> e.0 <= 2 && e.1 < n && e.2 < n && e.1 != e.2,
                forall|a2: int, b2: usize| 0 <= a2 < a && #[trigger] shared_node_lists@[a2]@.contains(b2) && a2 < b2
                    ==> min_heap@.contains((2u32, a2 as usize, b2)),
                forall|x: int| 0 <= x < n ==> (#[trigger] bufs_init[x]).node_id_list@ == entity_ids_of(sps[x].events@),
                bufs_init.len() == n,
                heap_shares(bufs_init, min_heap@),
            decreases n - a,
        {
            let list = &shared_node_lists[a];
            let mut b: usize = 0;
            while b < list.len()
                invariant
                    n == sps.len(),
                    a < n,
                    b <= list@.len(),
                    shared_node_lists_of(shared_node_lists@, sps),
                    *list == shared_node_lists@[a as int],
                    sub_pattern_buffers@ == bufs_init,
                    sibling_id_map@.len() == buffer_len,
                    parent_id_map@.len() == buffer_len,
                    merged@.len() == buffer_len,
                    forall|x: int| 0 <= x < buffer_len ==> #[trigger] parent_id_map@[x] == 0,
                    forall|x: int| 0 <= x < buffer_len ==> #[trigger] sibling_id_map@[x] == 0,
                    forall|x: int| 0 <= x < buffer_len ==> !#[trigger] merged@[x],
                    forall|e: (u32, usize, usize)| #[trigger] min_heap@.contains(e) ==> e.0 <= 2 && e.1 < n && e.2 < n && e.1 != e.2,
                    forall|a2: int, b2: usize| 0 <= a2 < a && #[trigger] shared_node_lists@[a2]@.contains(b2) && a2 < b2
                        ==> min_heap@.contains((2u32, a2 as usize, b2)),
                    forall|t: int| 0 <= t < b && a < #[trigger] list@[t] ==> min_heap@.contains((2u32, a, list@[t])),
                    forall|x: int| 0 <= x < n ==> (#[trigger] bufs_init[x]).node_id_list@ == entity_ids_of(sps[x].events@),
                    bufs_init.len() == n,
                    heap_shares(bufs_init, min_heap@),
                decreases list@.len() - b,
            {
                let j = list[b];
                assert(list@.contains(j));
                if j > a {
                    let ghost h0 = min_heap@;
                    min_heap.push((2u32, a, j));
                    proof {
                        lemma_push_keeps(h0, (2u32, a, j));
                        assert(share_entity(sps[a as int].events@, sps[j as int].events@));
                        let u = choose|u: usize| entity_ids_of(sps[a as int].events@).contains(u) && #[trigger] entity_ids_of(sps[j as int].events@).contains(u);
                        assert(bufs_init[j as int].node_id_list@.contains(u));
                        assert(share_node(bufs_init[a as int], bufs_init[j as int]));
                        assert forall|e: (u32, usize, usize)| #[trigger] min_heap@.contains(e) implies e.1 < bufs_init.len() && e.2 < bufs_init.len()
                            && share_node(bufs_init[e.1 as int], bufs_init[e.2 as int]) by {
                            if e != (2u32, a, j) {
                                let t = choose|t: int| 0 <= t < min_heap@.len() && min_heap@[t] == e;
                                assert(h0[t] == e);
                                assert(h0.contains(e));
                            }
                        }
                    }
                }
                b += 1;
            }
            proof {
                assert forall|a2: int, b2: usize| 0 <= a2 < a + 1 && #[trigger] shared_node_lists@[a2]@.contains(b2) && a2 < b2
                    implies min_heap@.contains((2u32, a2 as usize, b2)) by {
                    if a2 == a {
                        let t = choose|t: int| 0 <= t < list@.len() && list@[t] == b2;
                        assert(a < list@[t]);
                    }
                }
            }
            a += 1;
        }

        let mut union_find = UnionFind::new(buffer_len);
        proof {
            lemma_count_none_merged(merged@, n as int);
            assert(uf_ok(union_find.roots@, n as int, n as int));
            assert(marks_ok(merged@, union_find.roots@, parent_id_map@, sibling_id_map@, n as int));
            let r = union_find.roots@;
            let lists = shared_node_lists@;
            assert forall|x: int| 0 <= x < r.len() implies #[trigger] union_find::root_of(r, x) == x by {
                assert(r[x] == -1);
            }
            assert forall|a2: int, b2: usize| 0 <= a2 < n && #[trigger] lists[a2]@.contains(b2) implies {
                let ra = union_find::root_of(r, a2);
                let rb = union_find::root_of(r, b2 as int);
                ra == rb || covered(min_heap@, ra, rb) || ra == -1 || rb == -1
            } by {
                assert(union_find::root_of(r, a2) == a2);
                assert(union_find::root_of(r, b2 as int) == b2);
                if a2 < b2 {
                    assert(min_heap@.contains((2u32, a2 as usize, b2)));
                } else {
                    let au = a2 as usize;
                    assert(share_entity(sps[b2 as int].events@, sps[au as int].events@)) by {
                        let x = choose|x: usize| entity_ids_of(sps[a2].events@).contains(x) && #[trigger] entity_ids_of(sps[b2 as int].events@).contains(x);
                        assert(entity_ids_of(sps[b2 as int].events@).contains(x) && entity_ids_of(sps[au as int].events@).contains(x));
                    }
                    assert(lists[b2 as int]@.contains(au));
                    assert(min_heap@.contains((2u32, b2, au)));
                }
            }
            assert(pending(lists, n as int, r, min_heap@, -1));
            assert forall|a2: int| 0 <= a2 < n implies (#[trigger] sub_pattern_buffers@[a2]).node_id_list@.subset_of(
                sub_pattern_buffers@[union_find::root_of(r, a2)].node_id_list@) by {
                assert(union_find::root_of(r, a2) == a2);
            }
            assert forall|x: int| 0 <= x < n && r[x] < 0 implies #[trigger] has_leaf(r, n as int, x) by {
                assert(union_find::root_of(r, x) == x);
            }
        }
        while min_heap.len() > 0
            invariant
                n == sps.len(),
                sps == sub_patterns@,
                buffer_len == 2 * n - 1,
                2 * n < u32::MAX,
                pattern.order.targets_are_events(),
                shared_node_lists_of(shared_node_lists@, sps),
                tree_ok(*pattern, sps, sub_pattern_buffers@, sibling_id_map@, parent_id_map@),
                merged@.len() == buffer_len,
                union_find.roots@.len() == buffer_len,
                uf_ok(union_find.roots@, sub_pattern_buffers@.len() as int, n as int),
                marks_ok(merged@, union_find.roots@, parent_id_map@, sibling_id_map@, sub_pattern_buffers@.len() as int),
                unmerged_count(merged@, sub_pattern_buffers@.len() as int) == 2 * n - sub_pattern_buffers@.len(),
                !merged@[sub_pattern_buffers@.len() - 1],
                forall|x: int| 0 <= x < sub_pattern_buffers@.len() ==> {
                    &&& (#[trigger] sub_pattern_buffers@[x]).buffer@.len() == 0
                    &&& sub_pattern_buffers@[x].new_match_buffer@.len() == 0
                },
                forall|e: (u32, usize, usize)| #[trigger] min_heap@.contains(e) ==> e.0 <= sub_pattern_buffers@.len() - n + 2
                    && e.1 < sub_pattern_buffers@.len() && e.2 < sub_pattern_buffers@.len() && e.1 != e.2,
                pending(shared_node_lists@, n as int, union_find.roots@, min_heap@, -1),
                rooted_leaves(union_find.roots@, n as int, sub_pattern_buffers@.len() as int),
                heap_shares(sub_pattern_buffers@, min_heap@),
                leaves_under_roots(sub_pattern_buffers@, union_find.roots@, n as int),
            decreases 2 * n - 1 - sub_pattern_buffers@.len(), min_heap@.len(),
        {
            let ghost h0 = min_heap@;
            let (height, i, j) = pop_min(&mut min_heap);
            let ghost h1 = min_heap@;
            proof {
                let r = union_find.roots@;
                assert forall|a2: int| 0 <= a2 < r.len() implies r[#[trigger] union_find::root_of(r, a2)] < 0 by {
                    union_find::lemma_root_of(r, a2);
                }
                assert(h0.contains((height, i, j)));
            }
            proof {
                assert(heap_shares(sub_pattern_buffers@, h1)) by {
                    assert forall|e: (u32, usize, usize)| #[trigger] h1.contains(e) implies e.1 < sub_pattern_buffers@.len()
                        && e.2 < sub_pattern_buffers@.len() && share_node(sub_pattern_buffers@[e.1 as int], sub_pattern_buffers@[e.2 as int]) by {
                        assert(h0.contains(e));
                    }
                }
            }
            if merged[i] || merged[j] {
                proof {
                    lemma_pop_stale(shared_node_lists@, n as int, union_find.roots@, h0, min_heap@, (height, i, j));
                }
                continue;
            }
            let ghost len0 = sub_pattern_buffers@.len();
            let ghost bufs0 = sub_pattern_buffers@;
            let ghost sib0 = sibling_id_map@;
            let ghost par0 = parent_id_map@;
            let ghost merged0 = merged@;
            let ghost roots1 = union_find.roots@;
            proof {
                lemma_count_two(merged@, len0 as int, i as int, j as int);
            }
            merged.set(i, true);
            merged.set(j, true);
            proof {
                lemma_count_update(merged0, len0 as int, i as int);
                lemma_count_update(merged0.update(i as int, true), len0 as int, j as int);
            }

            let new_buffer_id = sub_pattern_buffers.len();
            create_buffer_pair(i, j, new_buffer_id, pattern, &mut sub_pattern_buffers);
            sibling_id_map.set(i, j);
            sibling_id_map.set(j, i);
            parent_id_map.set(i, new_buffer_id);
            parent_id_map.set(j, new_buffer_id);
            proof {
                lemma_cross_orders_symmetric(
                    crate::pattern::order_relation::dependencies_of(pattern.order.arcs()),
                    bufs0[i as int].edge_id_list@,
                    bufs0[j as int].edge_id_list@,
                );
                union_find::lemma_root_of(roots1, i as int);
                union_find::lemma_root_of(roots1, j as int);
                assert(roots1[i as int] < 0 && roots1[j as int] < 0);
                assert(roots1[new_buffer_id as int] == -1);
            }
            union_find.merge(i, j, new_buffer_id);
            proof {
                let bufs = sub_pattern_buffers@;
                let sib = sibling_id_map@;
                let par = parent_id_map@;
                let roots2 = union_find.roots@;
                assert(share_node(bufs0[i as int], bufs0[j as int]));
                assert(share_node(bufs[i as int], bufs[j as int])) by {
                    let u = choose|u: usize| bufs0[i as int].node_id_list@.contains(u) && #[trigger] bufs0[j as int].node_id_list@.contains(u);
                    assert(bufs[j as int].node_id_list@.contains(u));
                }
                assert(share_node(bufs[j as int], bufs[i as int])) by {
                    let u = choose|u: usize| bufs0[i as int].node_id_list@.contains(u) && #[trigger] bufs0[j as int].node_id_list@.contains(u);
                    assert(bufs[i as int].node_id_list@.contains(u));
                }
                assert forall|x: int| 0 <= x < bufs.len() && x < #[trigger] par[x] implies pair_ok(*pattern, bufs, sib, par, x) by {
                    if x == i || x == j {
                        assert(bufs[i as int].node_id_list@ == bufs0[i as int].node_id_list@);
                        assert(bufs[j as int].node_id_list@ == bufs0[j as int].node_id_list@);
                        assert(bufs[i as int].edge_id_list@ == bufs0[i as int].edge_id_list@);
                        assert(bufs[j as int].edge_id_list@ == bufs0[j as int].edge_id_list@);
                        let p = new_buffer_id as int;
                        assert(bufs[p].node_id_list@ == bufs[i as int].node_id_list@.union(bufs[j as int].node_id_list@));
                        assert(bufs[p].edge_id_list@ == bufs[i as int].edge_id_list@.union(bufs[j as int].edge_id_list@));
                        assert(bufs[p].node_id_list@ =~= bufs[j as int].node_id_list@.union(bufs[i as int].node_id_list@));
                        assert(bufs[p].edge_id_list@ =~= bufs[j as int].edge_id_list@.union(bufs[i as int].edge_id_list@));
                        assert(is_relation_of(bufs[i as int].relation, *pattern, bufs[i as int], bufs[j as int]));
                        assert(is_relation_of(bufs[j as int].relation, *pattern, bufs[j as int], bufs[i as int]));
                    } else {
                        assert(par0[x] == par[x]);
                        assert(x < len0);
                        assert(merged0[x]);
                        assert(pair_ok(*pattern, bufs0, sib0, par0, x));
                        let y = sib0[x] as int;
                        let p = par0[x] as int;
                        assert(merged0[y]);
                        assert(y != i && y != j);
                        assert(bufs[x] == bufs0[x]);
                        assert(bufs[y] == bufs0[y]);
                        assert(bufs[p].node_id_list@ == bufs0[p].node_id_list@);
                        assert(bufs[p].edge_id_list@ == bufs0[p].edge_id_list@);
                    }
                }
                assert(tree_ok(*pattern, sps, bufs, sib, par));
                assert forall|x: int| 0 <= x < roots2.len() implies {
                    &&& #[trigger] roots2[x] >= -(bufs.len() - n + 1)
                    &&& (roots2[x] >= 0 ==> roots2[x] < bufs.len())
                    &&& (x >= bufs.len() ==> roots2[x] == -1)
                } by {
                    assert(roots1[x] >= -(len0 - n + 1));
                    if roots1[x] >= 0 && x != i && x != j && x != new_buffer_id {
                        union_find::lemma_root_of(roots1, x);
                        union_find::lemma_root_below(roots1, x, len0 as int);
                    }
                }
                assert(uf_ok(roots2, bufs.len() as int, n as int));
                assert forall|x: int| 0 <= x < merged@.len() implies {
                    &&& (merged@[x] <==> roots2[x] >= 0)
                    &&& (merged@[x] <==> x < par[x])
                    &&& (x >= bufs.len() ==> par[x] == 0)
                    &&& (merged@[x] ==> merged@[sib[x] as int])
                } by {
                    assert(merged0[x] <==> roots1[x] >= 0);
                    assert(merged0[x] <==> x < par0[x]);
                    if x != i && x != j && x != new_buffer_id && roots1[x] >= 0 {
                        union_find::lemma_root_of(roots1, x);
                    }
                }
                assert(marks_ok(merged@, roots2, par, sib, bufs.len() as int));
                lemma_count_same(merged@, len0 as int, len0 as int);
                assert(merged@[len0 as int] == merged0[len0 as int]);
                assert(union_find::root_of(roots1, i as int) == i);
                assert(union_find::root_of(roots1, j as int) == j);
                lemma_pop_merge(shared_node_lists@, n as int, roots1, roots2, h0, h1, (height, i, j), new_buffer_id as int);
                assert forall|x: int| 0 <= x < len0 + 1 && roots2[x] < 0 implies #[trigger] has_leaf(roots2, n as int, x) by {
                    if x == new_buffer_id {
                        assert(has_leaf(roots1, n as int, i as int));
                        let a = choose|a: int| 0 <= a < n && #[trigger] union_find::root_of(roots1, a) == i;
                        assert(union_find::root_of(roots2, a) == x);
                    } else {
                        assert(x != i && x != j);
                        assert(roots1[x] < 0);
                        assert(has_leaf(roots1, n as int, x));
                        let a = choose|a: int| 0 <= a < n && #[trigger] union_find::root_of(roots1, a) == x;
                        assert(union_find::root_of(roots2, a) == x);
                    }
                }
            }
            proof {
                let bufs = sub_pattern_buffers@;
                let roots2 = union_find.roots@;
                assert forall|x: int| 0 <= x < len0 implies (#[trigger] bufs[x]).node_id_list@ == bufs0[x].node_id_list@ by {
                    if x != i && x != j {
                        assert(bufs[x] == bufs0[x]);
                    }
                }
                assert forall|e: (u32, usize, usize)| #[trigger] h1.contains(e) implies e.1 < bufs.len() && e.2 < bufs.len()
                    && share_node(bufs[e.1 as int], bufs[e.2 as int]) by {
                    assert(h0.contains(e));
                    assert(share_node(bufs0[e.1 as int], bufs0[e.2 as int]));
                    let u = choose|u: usize| bufs0[e.1 as int].node_id_list@.contains(u) && #[trigger] bufs0[e.2 as int].node_id_list@.contains(u);
                    assert(bufs[e.1 as int].node_id_list@ == bufs0[e.1 as int].node_id_list@);
                    assert(bufs[e.2 as int].node_id_list@.contains(u));
                }
                assert forall|a2: int| 0 <= a2 < n implies (#[trigger] bufs[a2]).node_id_list@.subset_of(
                    bufs[union_find::root_of(roots2, a2)].node_id_list@) by {
                    let r1 = union_find::root_of(roots1, a2);
                    union_find::lemma_root_of(roots1, a2);
                    union_find::lemma_root_below(roots1, a2, len0 as int);
                    assert(bufs0[a2].node_id_list@.subset_of(bufs0[r1].node_id_list@));
                    assert(bufs[a2].node_id_list@ == bufs0[a2].node_id_list@);
                    assert(bufs[r1].node_id_list@ == bufs0[r1].node_id_list@);
                }
            }
            let ghost rk = union_find.roots@;
            let ghost h_mid = min_heap@;

            let mut visited: HashSet<usize> = HashSet::new();
            visited.insert(new_buffer_id);
            let mut k: usize = 0;
            while k < n
                invariant
                    same_roots(union_find.roots@, rk),
                    pending(shared_node_lists@, n as int, rk, h_mid, new_buffer_id as int),
                    rooted_leaves(rk, n as int, sub_pattern_buffers@.len() as int),
                    forall|e: (u32, usize, usize)| h_mid.contains(e) ==> #[trigger] min_heap@.contains(e),
                    joined_below(shared_node_lists@, rk, min_heap@, new_buffer_id as int, k as int),
                    forall|v: usize| #[trigger] visited@.contains(v) && v != new_buffer_id ==> covered(min_heap@, new_buffer_id as int, v as int),
                    heap_shares(sub_pattern_buffers@, min_heap@),
                    leaves_under_roots(sub_pattern_buffers@, rk, n as int),
                    forall|x: int| 0 <= x < n ==> (#[trigger] sub_pattern_buffers@[x]).node_id_list@ == entity_ids_of(sps[x].events@),
                    rk.len() == buffer_len,
                    uf_ok(rk, sub_pattern_buffers@.len() as int, n as int),
                    n == sps.len(),
                    k <= n,
                    buffer_len == 2 * n - 1,
                    2 * n < u32::MAX,
                    sub_pattern_buffers@.len() == new_buffer_id + 1,
                    new_buffer_id < buffer_len,
                    new_buffer_id >= n,
                    height <= new_buffer_id - n + 2,
                    shared_node_lists_of(shared_node_lists@, sps),
                    union_find.roots@.len() == buffer_len,
                    uf_ok(union_find.roots@, sub_pattern_buffers@.len() as int, n as int),
                    marks_ok(merged@, union_find.roots@, parent_id_map@, sibling_id_map@, sub_pattern_buffers@.len() as int),
                    merged@.len() == buffer_len,
                    visited@.contains(new_buffer_id),
                    forall|e: (u32, usize, usize)| #[trigger] min_heap@.contains(e) ==> e.0 <= sub_pattern_buffers@.len() - n + 2
                        && e.1 < sub_pattern_buffers@.len() && e.2 < sub_pattern_buffers@.len() && e.1 != e.2,
                decreases n - k,
            {
                let ghost r0 = union_find.roots@;
                let cur_root = union_find.get_root(k);
                proof {
                    lemma_compress_keeps(r0, union_find.roots@, sub_pattern_buffers@.len() as int, n as int);
                    union_find::lemma_root_of(r0, k as int);
                    union_find::lemma_root_below(r0, k as int, sub_pattern_buffers@.len() as int);
                    assert(union_find.roots@[cur_root as int] == r0[cur_root as int]);
                    assert(cur_root == union_find::root_of(rk, k as int));
                }
                let ghost heap_k = min_heap@;
                let ghost mut pushed = false;
                if !visited.contains(&cur_root) {
                    let list = &shared_node_lists[k];
                    let mut b: usize = 0;
                    while b < list.len()
                        invariant
                            same_roots(union_find.roots@, rk),
                            pending(shared_node_lists@, n as int, rk, h_mid, new_buffer_id as int),
                            rooted_leaves(rk, n as int, sub_pattern_buffers@.len() as int),
                            forall|e: (u32, usize, usize)| h_mid.contains(e) ==> #[trigger] min_heap@.contains(e),
                            joined_below(shared_node_lists@, rk, heap_k, new_buffer_id as int, k as int),
                            forall|v: usize| #[trigger] visited@.contains(v) && v != new_buffer_id ==> covered(min_heap@, new_buffer_id as int, v as int),
                            heap_shares(sub_pattern_buffers@, min_heap@),
                            leaves_under_roots(sub_pattern_buffers@, rk, n as int),
                            forall|x: int| 0 <= x < n ==> (#[trigger] sub_pattern_buffers@[x]).node_id_list@ == entity_ids_of(sps[x].events@),
                            rk.len() == buffer_len,
                            uf_ok(rk, sub_pattern_buffers@.len() as int, n as int),
                            cur_root == union_find::root_of(rk, k as int),
                            forall|e: (u32, usize, usize)| heap_k.contains(e) ==> #[trigger] min_heap@.contains(e),
                            !pushed ==> min_heap@ == heap_k,
                            !pushed ==> forall|t: int| 0 <= t < b ==> #[trigger] union_find::root_of(rk, list@[t] as int) != new_buffer_id,
                            pushed ==> covered(min_heap@, new_buffer_id as int, cur_root as int),
                            n == sps.len(),
                            k < n,
                            b <= list@.len(),
                            buffer_len == 2 * n - 1,
                            2 * n < u32::MAX,
                            sub_pattern_buffers@.len() == new_buffer_id + 1,
                            new_buffer_id < buffer_len,
                            new_buffer_id >= n,
                            height <= new_buffer_id - n + 2,
                            shared_node_lists_of(shared_node_lists@, sps),
                            *list == shared_node_lists@[k as int],
                            cur_root < sub_pattern_buffers@.len(),
                            cur_root != new_buffer_id,
                            union_find.roots@[cur_root as int] < 0,
                            union_find.roots@.len() == buffer_len,
                            uf_ok(union_find.roots@, sub_pattern_buffers@.len() as int, n as int),
                            marks_ok(merged@, union_find.roots@, parent_id_map@, sibling_id_map@, sub_pattern_buffers@.len() as int),
                            merged@.len() == buffer_len,
                            visited@.contains(new_buffer_id),
                            forall|e: (u32, usize, usize)| #[trigger] min_heap@.contains(e) ==> e.0 <= sub_pattern_buffers@.len() - n + 2
                                && e.1 < sub_pattern_buffers@.len() && e.2 < sub_pattern_buffers@.len() && e.1 != e.2,
                        ensures
                            !pushed ==> forall|t: int| 0 <= t < list@.len() ==> #[trigger] union_find::root_of(rk, list@[t] as int) != new_buffer_id,
                        decreases list@.len() - b,
                    {
                        let id = list[b];
                        assert(list@.contains(id));
                        let ghost r1 = union_find.roots@;
                        let id_root = union_find.get_root(id);
                        proof {
                            lemma_compress_keeps(r1, union_find.roots@, sub_pattern_buffers@.len() as int, n as int);
                            assert(union_find.roots@[cur_root as int] == r1[cur_root as int]);
                            assert(r1[cur_root as int] >= -(sub_pattern_buffers@.len() - n + 1));
                            assert(same_roots(union_find.roots@, rk));
                            assert(id_root == union_find::root_of(rk, id as int));
                        }
                        if id_root == new_buffer_id {
                            let cur_height = union_find.get_height(cur_root);
                            let new_height = if height >= cur_height { height } else { cur_height } + 1;
                            let ghost hb = min_heap@;
                            min_heap.push((new_height, new_buffer_id, cur_root));
                            visited.insert(cur_root);
                            proof {
                                lemma_push_keeps(hb, (new_height, new_buffer_id, cur_root));
                                let bufs = sub_pattern_buffers@;
                                assert(list@.contains(id));
                                assert(share_entity(sps[k as int].events@, sps[id as int].events@));
                                let u = choose|u: usize| entity_ids_of(sps[k as int].events@).contains(u) && #[trigger] entity_ids_of(sps[id as int].events@).contains(u);
                                assert(bufs[k as int].node_id_list@.contains(u));
                                assert(bufs[id as int].node_id_list@.contains(u));
                                assert(bufs[k as int].node_id_list@.subset_of(bufs[union_find::root_of(rk, k as int)].node_id_list@));
                                assert(bufs[id as int].node_id_list@.subset_of(bufs[union_find::root_of(rk, id as int)].node_id_list@));
                                assert(bufs[cur_root as int].node_id_list@.contains(u));
                                assert(bufs[new_buffer_id as int].node_id_list@.contains(u));
                                assert(share_node(bufs[new_buffer_id as int], bufs[cur_root as int]));
                                assert forall|e: (u32, usize, usize)| #[trigger] min_heap@.contains(e) implies e.1 < bufs.len() && e.2 < bufs.len()
                                    && share_node(bufs[e.1 as int], bufs[e.2 as int]) by {
                                    if e != (new_height, new_buffer_id, cur_root) {
                                        let t = choose|t: int| 0 <= t < min_heap@.len() && min_heap@[t] == e;
                                        assert(hb[t] == e);
                                        assert(hb.contains(e));
                                    }
                                }
                                pushed = true;
                                assert(covered(min_heap@, new_buffer_id as int, cur_root as int));
                                assert forall|v: usize| #[trigger] visited@.contains(v) && v != new_buffer_id implies covered(min_heap@, new_buffer_id as int, v as int) by {
                                    if v != cur_root {
                                        lemma_covered_grows(hb, min_heap@, new_buffer_id as int, v as int);
                                    }
                                }
                            }
                            break;
                        }
                        b += 1;
                    }
                    proof {
                        lemma_k_step(shared_node_lists@, rk, heap_k, min_heap@, new_buffer_id as int, k as int, cur_root as int);
                    }
                } else {
                    proof {
                        lemma_k_step(shared_node_lists@, rk, heap_k, min_heap@, new_buffer_id as int, k as int, cur_root as int);
                    }
                }
                k += 1;
            }
            proof {
                lemma_pending_done(shared_node_lists@, sps, rk, h_mid, min_heap@, new_buffer_id as int);
                lemma_pending_same_roots(shared_node_lists@, n as int, rk, union_find.roots@, min_heap@, -1);
                lemma_leaves_same_roots(rk, union_find.roots@, n as int, sub_pattern_buffers@.len() as int);
                assert forall|a2: int| 0 <= a2 < n implies (#[trigger] sub_pattern_buffers@[a2]).node_id_list@.subset_of(
                    sub_pattern_buffers@[union_find::root_of(union_find.roots@, a2)].node_id_list@) by {
                    assert(union_find::root_of(union_find.roots@, a2) == union_find::root_of(rk, a2));
                }
            }
        }
        proof {
            let len = sub_pattern_buffers@.len();
            if linked(sps) {
                assert(min_heap@ =~= Seq::<(u32, usize, usize)>::empty());
                let r = union_find.roots@;
                assert forall|a: int| 0 <= a < n implies union_find::root_of(r, a) >= 0 by {
                    union_find::lemma_root_of(r, a);
                }
                assert forall|x: int| 0 <= x < len implies (#[trigger] merged@[x] <==> r[x] >= 0) by {
                    assert(merged@[x] <==> r[x] >= 0);
                }
                lemma_one_tree(shared_node_lists@, sps, r, merged@, len as int);
            }
            if len == 2 * n - 1 {
                lemma_count_all_merged(merged@, len as int);
                let r = union_find.roots@;
                union_find::lemma_root_of(r, 0);
                union_find::lemma_root_below(r, 0, len as int);
                let r0 = union_find::root_of(r, 0);
                if r0 != len - 1 {
                    assert(merged@[r0]);
                }
                assert(sub_pattern_buffers@[0].node_id_list@.subset_of(sub_pattern_buffers@[r0].node_id_list@));
                assert forall|x: int| 0 <= x < len - 1 implies x < #[trigger] parent_id_map@[x] by {
                    assert(merged@[x]);
                }
            }
        }
        let res = JoinLayer {
            pattern,
            sub_pattern_buffers,
            window_size,
            full_match: Vec::new(),
            sibling_id_map,
            parent_id_map,
        };
        proof {
            let len = res.sub_pattern_buffers@.len();
            if len == 2 * n - 1 && pattern.well_formed() {
                assert forall|x: int| 0 <= x < len - 1 implies {
                    &&& x < #[trigger] res.parent_id_map@[x] < len
                    &&& res.sibling_id_map@[x] < len
                    &&& sub_pattern_buffer::orders_below(res.sub_pattern_buffers@[x].relation.event_orders@, pattern.events@.len())
                } by {
                    assert(pair_ok(*pattern, res.sub_pattern_buffers@, res.sibling_id_map@, res.parent_id_map@, x));
                    let bx = res.sub_pattern_buffers@[x];
                    let by = res.sub_pattern_buffers@[res.sibling_id_map@[x] as int];
                    lemma_relation_orders_below(bx.relation, *pattern, bx, by);
                }
            }
        }
        res
    }
}

/// Every dependency has both events below `n` when every arc ends at most at `n`.
proof fn lemma_deps_below(arcs: Seq<(int, int)>, n: int)
    requires
        forall|k: int| #![trigger arcs[k]] 0 <= k < arcs.len() ==> 0 <= arcs[k].0 <= n && 1 <= arcs[k].1 <= n,
    ensures
        forall|k: int| 0 <= k < crate::pattern::order_relation::dependencies_of(arcs).len() ==> {
            let d = #[trigger] crate::pattern::order_relation::dependencies_of(arcs)[k];
            0 <= d.0 < n && 0 <= d.1 < n
        },
    decreases arcs.len(),
{
    if arcs.len() > 0 {
        let prev = arcs.drop_last();
        assert forall|k: int| #![trigger prev[k]] 0 <= k < prev.len() implies 0 <= prev[k].0 <= n && 1 <= prev[k].1 <= n by {
            assert(prev[k] == arcs[k]);
        }
        lemma_deps_below(prev, n);
        let rest = crate::pattern::order_relation::dependencies_of(prev);
        let e = arcs.last();
        assert(arcs[arcs.len() - 1] == e);
        let ds = crate::pattern::order_relation::dependencies_of(arcs);
        assert forall|k: int| 0 <= k < ds.len() implies 0 <= (#[trigger] ds[k]).0 < n && 0 <= ds[k].1 < n by {
            if k < rest.len() {
                assert(ds[k] == rest[k]);
            }
        }
    }
}

/// The orders chosen among `deps` are dependencies of `deps`.
proof fn lemma_cross_orders_below(deps: Seq<(int, int)>, e1: Set<usize>, e2: Set<usize>, n: int)
    requires
        forall|k: int| 0 <= k < deps.len() ==> 0 <= (#[trigger] deps[k]).0 < n && 0 <= deps[k].1 < n,
    ensures
        forall|k: int| 0 <= k < sub_pattern_buffer::cross_orders(deps, e1, e2).len() ==> {
            let d = #[trigger] sub_pattern_buffer::cross_orders(deps, e1, e2)[k];
            0 <= d.0 < n && 0 <= d.1 < n
        },
    decreases deps.len(),
{
    if deps.len() > 0 {
        let prev = deps.drop_last();
        assert forall|k: int| 0 <= k < prev.len() implies 0 <= (#[trigger] prev[k]).0 < n && 0 <= prev[k].1 < n by {
            assert(prev[k] == deps[k]);
        }
        lemma_cross_orders_below(prev, e1, e2, n);
        let rest = sub_pattern_buffer::cross_orders(prev, e1, e2);
        assert(deps[deps.len() - 1] == deps.last());
        let cs = sub_pattern_buffer::cross_orders(deps, e1, e2);
        assert forall|k: int| 0 <= k < cs.len() implies 0 <= (#[trigger] cs[k]).0 < n && 0 <= cs[k].1 < n by {
            if k < rest.len() {
                assert(cs[k] == rest[k]);
            }
        }
    }
}

/// The orders of a relation of a well-formed pattern name pattern events.
proof fn lemma_relation_orders_below(rel: Relation, pattern: Pattern, b1: SubPatternBuffer, b2: SubPatternBuffer)
    requires
        is_relation_of(rel, pattern, b1, b2),
        pattern.well_formed(),
    ensures
        sub_pattern_buffer::orders_below(rel.event_orders@, pattern.events@.len()),
{
    let arcs = pattern.order.arcs();
    let n = pattern.events@.len() as int;
    assert forall|k: int| #![trigger arcs[k]] 0 <= k < arcs.len() implies 0 <= arcs[k].0 <= n && 1 <= arcs[k].1 <= n by {
        assert(arcs[k].1 >= 1);
    }
    lemma_deps_below(arcs, n);
    let deps = crate::pattern::order_relation::dependencies_of(arcs);
    lemma_cross_orders_below(deps, b1.edge_id_list@, b2.edge_id_list@, n);
    let orders = rel.event_orders@;
    assert forall|k: int| 0 <= k < orders.len() implies #[trigger] orders[k].0 < n && orders[k].1 < n by {
        let mapped = orders.map_values(|e: (usize, usize)| (e.0 as int, e.1 as int));
        assert(mapped[k] == (orders[k].0 as int, orders[k].1 as int));
    }
}

/// Keeps the matches whose earliest event is not before `bound`, in order.
pub open spec fn unexpired(s: Seq<SubPatternMatch>, bound: u64) -> Seq<SubPatternMatch>
    decreases s.len(),
{
    if s.len() == 0 {
        Seq::empty()
    } else {
        let rest = unexpired(s.drop_last(), bound);
        if s.last().earliest_time >= bound { rest.push(s.last()) } else { rest }
    }
}

/// The pairs `(p, q)`, `p < n1`, `q < n2`, row by row, for which `ok` holds.
pub open spec fn ok_pairs(n1: int, n2: int, ok: spec_fn(int, int) -> bool) -> Seq<(int, int)>
    decreases n1,
{
    if n1 <= 0 {
        Seq::empty()
    } else {
        ok_pairs(n1 - 1, n2, ok) + row_pairs(n1 - 1, n2, ok)
    }
}

/// The pairs `(p, q)`, `q < n2`, for which `ok` holds.
pub open spec fn row_pairs(p: int, n2: int, ok: spec_fn(int, int) -> bool) -> Seq<(int, int)>
    decreases n2,
{
    if n2 <= 0 {
        Seq::empty()
    } else if ok(p, n2 - 1) {
        row_pairs(p, n2 - 1, ok).push((p, n2 - 1))
    } else {
        row_pairs(p, n2 - 1, ok)
    }
}

/// The index of the buffer that holds matches of sub-pattern `sub_match_id`.
pub fn get_buffer_id(sub_match_id: usize) -> (res: usize)
    ensures
        res == sub_match_id,
{
    sub_match_id
}

impl<'p> JoinLayer<'p> {
    /// Every match in `ms` fits the pattern.
    pub open spec fn matches_ok(&self, ms: Seq<SubPatternMatch>) -> bool {
        forall|k: int| 0 <= k < ms.len() ==> (#[trigger] ms[k]).well_formed(
            self.pattern.events@.len(),
            self.pattern.entities@.len(),
        )
    }

    /// What joining relies on: a complete tree, every buffer but the root below its parent,
    /// orders that name pattern events, and well-formed matches everywhere.
    pub open spec fn runtime_ok(&self) -> bool {
        let bufs = self.sub_pattern_buffers@;
        let len = bufs.len();
        &&& len >= 1
        &&& self.sibling_id_map@.len() == len
        &&& self.parent_id_map@.len() == len
        &&& forall|x: int| 0 <= x < len - 1 ==> {
            &&& x < #[trigger] self.parent_id_map@[x] < len
            &&& self.sibling_id_map@[x] < len
            &&& sub_pattern_buffer::orders_below(bufs[x].relation.event_orders@, self.pattern.events@.len())
        }
        &&& forall|x: int| 0 <= x < len ==> {
            &&& (#[trigger] bufs[x]).max_num_entities == self.pattern.entities@.len()
            &&& self.matches_ok(bufs[x].buffer@)
            &&& self.matches_ok(bufs[x].new_match_buffer@)
        }
        &&& self.full_matches_ok()
    }

    /// Every complete match lists its input events in order and has one entry for each pattern
    /// event.
    pub open spec fn full_matches_ok(&self) -> bool {
        forall|k: int| 0 <= k < self.full_match@.len() ==> {
            &&& is_sorted((#[trigger] self.full_match@[k]).event_ids@)
            &&& self.full_match@[k].match_event_map@.len() == self.pattern.events@.len()
            &&& map_well_formed(self.full_match@[k].match_event_map@)
        }
    }

    /// The parts of the layer that joining never changes.
    pub open spec fn same_shape(&self, other: &Self) -> bool {
        &&& self.pattern == other.pattern
        &&& self.window_size == other.window_size
        &&& self.sibling_id_map@ == other.sibling_id_map@
        &&& self.parent_id_map@ == other.parent_id_map@
        &&& self.sub_pattern_buffers@.len() == other.sub_pattern_buffers@.len()
        &&& forall|x: int| 0 <= x < self.sub_pattern_buffers@.len() ==> {
            &&& (#[trigger] self.sub_pattern_buffers@[x]).relation.event_orders@ == other.sub_pattern_buffers@[x].relation.event_orders@
            &&& self.sub_pattern_buffers@[x].max_num_entities == other.sub_pattern_buffers@[x].max_num_entities
            &&& self.sub_pattern_buffers@[x].id == other.sub_pattern_buffers@[x].id
        }
    }

    /// Every buffer but the last has found a sibling, so the buffers form one tree.
    pub fn is_complete(&self) -> (res: bool)
        ensures
            res == (self.sub_pattern_buffers@.len() == self.sibling_id_map@.len()),
    {
        self.sub_pattern_buffers.len() == self.sibling_id_map.len()
    }

    /// The id of the root buffer.
    pub fn get_root_buffer_id(&self) -> (res: usize)
        requires
            self.sub_pattern_buffers@.len() >= 1,
        ensures
            res == self.sub_pattern_buffers@.len() - 1,
    {
        self.sub_pattern_buffers.len() - 1
    }

    /// The sibling of buffer `id`.
    pub fn get_sibling_id(&self, id: usize) -> (res: usize)
        requires
            id < self.sibling_id_map@.len(),
        ensures
            res == self.sibling_id_map@[id as int],
    {
        self.sibling_id_map[id]
    }

    /// The parent of buffer `id`.
    pub fn get_parent_id(&self, id: usize) -> (res: usize)
        requires
            id < self.parent_id_map@.len(),
        ensures
            res == self.parent_id_map@[id as int],
    {
        self.parent_id_map[id]
    }

    /// Drops the matches of buffer `buffer_id` whose earliest event is out of the window that
    /// ends at `latest_time`.
    pub fn clear_expired(&mut self, latest_time: u64, buffer_id: usize)
        requires
            buffer_id < old(self).sub_pattern_buffers@.len(),
        ensures
            final(self).same_shape(old(self)),
            final(self).full_match@ == old(self).full_match@,
            final(self).sub_pattern_buffers@[buffer_id as int].buffer@ == unexpired(
                old(self).sub_pattern_buffers@[buffer_id as int].buffer@,
                if latest_time >= old(self).window_size { (latest_time - old(self).window_size) as u64 } else { 0 },
            ),
            final(self).sub_pattern_buffers@[buffer_id as int].new_match_buffer@
                == old(self).sub_pattern_buffers@[buffer_id as int].new_match_buffer@,
            same_but_matches(old(self).sub_pattern_buffers@[buffer_id as int], final(self).sub_pattern_buffers@[buffer_id as int]),
            final(self).pattern == old(self).pattern,
            forall|x: int| 0 <= x < old(self).sub_pattern_buffers@.len() && x != buffer_id ==>
                #[trigger] final(self).sub_pattern_buffers@[x] == old(self).sub_pattern_buffers@[x],
    {
        let bound = latest_time.saturating_sub(self.window_size);
        let mut old_matches: Vec<SubPatternMatch> = Vec::new();
        std::mem::swap(&mut old_matches, &mut self.sub_pattern_buffers[buffer_id].buffer);
        let ghost all = old_matches@;
        let mut kept: Vec<SubPatternMatch> = Vec::new();
        for m in it: old_matches.into_iter()
            invariant
                it.seq() == all,
                kept@ == unexpired(all.take(it.index()), bound),
        {
            proof {
                assert(all.take(it.index() + 1).drop_last() =~= all.take(it.index()));
            }
            if m.earliest_time >= bound {
                kept.push(m);
            }
        }
        assert(all.take(all.len() as int) =~= all);
        self.sub_pattern_buffers[buffer_id].buffer = kept;
    }
}

/// Which pairs of new matches and sibling matches can be joined.
pub open spec fn merge_ok(buffer: SubPatternBuffer, ms1: Seq<SubPatternMatch>, ms2: Seq<SubPatternMatch>) -> spec_fn(int, int) -> bool {
    |p: int, q: int| can_merge(buffer, ms1[p], ms2[q])
}

/// A complete pattern match with the fields of a sub-pattern match.
pub open spec fn to_pattern_match(m: SubPatternMatch) -> PatternMatch {
    PatternMatch {
        latest_time: m.latest_time,
        earliest_time: m.earliest_time,
        event_ids: m.event_ids,
        match_event_map: m.match_event_map,
    }
}

/// Buffer `b` is buffer `a` but for its two lists of matches.
pub open spec fn same_but_matches(a: SubPatternBuffer, b: SubPatternBuffer) -> bool {
    &&& b.id == a.id
    &&& b.node_id_list == a.node_id_list
    &&& b.edge_id_list == a.edge_id_list
    &&& b.relation == a.relation
    &&& b.max_num_entities == a.max_num_entities
    &&& b.max_num_events == a.max_num_events
}

/// The joined matches and the new matches of each buffer of `l`.
pub open spec fn match_lists<'p>(l: JoinLayer<'p>) -> Seq<(Seq<SubPatternMatch>, Seq<SubPatternMatch>)> {
    l.sub_pattern_buffers@.map_values(|b: SubPatternBuffer| (b.buffer@, b.new_match_buffer@))
}

/// `post` is `pre` but for the lists of matches of its buffers and its complete matches.
pub open spec fn same_but_lists<'p>(pre: JoinLayer<'p>, post: JoinLayer<'p>) -> bool {
    &&& post.pattern == pre.pattern
    &&& post.window_size == pre.window_size
    &&& post.sibling_id_map@ == pre.sibling_id_map@
    &&& post.parent_id_map@ == pre.parent_id_map@
    &&& post.sub_pattern_buffers@.len() == pre.sub_pattern_buffers@.len()
    &&& forall|x: int| 0 <= x < pre.sub_pattern_buffers@.len()
        ==> same_but_matches(pre.sub_pattern_buffers@[x], #[trigger] post.sub_pattern_buffers@[x])
}

/// The start of the window of `window_size` that ends at `time`, or 0.
pub open spec fn window_bound(time: u64, window_size: u64) -> u64 {
    if time >= window_size { (time - window_size) as u64 } else { 0 }
}

/// The lists of matches `v` after one step of joining from buffer `b`, with sibling `s` and
/// parent `p`: the expired matches leave the sibling, the joins `j` are added to the new
/// matches of the parent, and the new matches of `b` join its other matches.
pub open spec fn after_join_step(
    v: Seq<(Seq<SubPatternMatch>, Seq<SubPatternMatch>)>,
    s: int,
    p: int,
    b: int,
    bound: u64,
    j: Seq<SubPatternMatch>,
) -> Seq<(Seq<SubPatternMatch>, Seq<SubPatternMatch>)> {
    let v1 = v.update(s, (unexpired(v[s].0, bound), v[s].1));
    let v2 = v1.update(p, (v1[p].0, v1[p].1 + j));
    v2.update(b, (v2[b].0 + v2[b].1, Seq::<SubPatternMatch>::empty()))
}

/// `post` is `pre` after one step of joining from buffer `b` at `time`: the new matches of `b`
/// are joined with the unexpired matches of its sibling, pair by pair in order, and the joins
/// go to the parent ([after_join_step]).
pub open spec fn joined_once<'p>(pre: JoinLayer<'p>, post: JoinLayer<'p>, time: u64, b: int) -> bool {
    let v = match_lists(pre);
    let s = pre.sibling_id_map@[b] as int;
    let p = pre.parent_id_map@[b] as int;
    let bound = window_bound(time, pre.window_size);
    let sib = unexpired(v[s].0, bound);
    let ms1 = v[b].1;
    let buf = pre.sub_pattern_buffers@[b];
    let pairs = ok_pairs(ms1.len() as int, sib.len() as int, merge_ok(buf, ms1, sib));
    &&& same_but_lists(pre, post)
    &&& post.full_match@ == pre.full_match@
    &&& exists|j: Seq<SubPatternMatch>| {
        &&& j.len() == pairs.len()
        &&& (forall|k: int| 0 <= k < pairs.len() ==> is_merge_of(buf, ms1[pairs[k].0], sib[pairs[k].1], #[trigger] j[k]))
        &&& match_lists(post) == #[trigger] after_join_step(v, s, p, b, bound, j)
    }
}

/// `post` is `pre` after answering at the root: its joined matches, then its new ones, become
/// complete matches, and it is emptied.
pub open spec fn answered<'p>(pre: JoinLayer<'p>, post: JoinLayer<'p>) -> bool {
    let r = pre.sub_pattern_buffers@.len() - 1;
    let v = match_lists(pre);
    &&& same_but_lists(pre, post)
    &&& post.full_match@ == pre.full_match@ + v[r].0.map_values(|m: SubPatternMatch| to_pattern_match(m))
        + v[r].1.map_values(|m: SubPatternMatch| to_pattern_match(m))
    &&& match_lists(post) == v.update(r, (Seq::<SubPatternMatch>::empty(), Seq::<SubPatternMatch>::empty()))
}

/// Buffer `x` of `l` has new matches.
pub open spec fn has_new<'p>(l: JoinLayer<'p>, x: int) -> bool {
    l.sub_pattern_buffers@[x].new_match_buffer@.len() > 0
}

/// `states` are the layers along a climb from buffer `ids[0]` at `time`: each step joins once
/// from a buffer below the root and goes to its parent, which has new matches whenever the
/// climb goes on from it.
pub open spec fn join_path<'p>(states: Seq<JoinLayer<'p>>, ids: Seq<int>, time: u64) -> bool {
    &&& states.len() == ids.len()
    &&& ids.len() >= 1
    &&& forall|k: int| 0 <= k < states.len() - 1 ==> #[trigger] climb_step(states, ids, time, k)
    &&& forall|k: int| 1 <= k < states.len() - 1 ==> has_new(#[trigger] states[k], ids[k])
}

/// Step `k` of a climb joins once from buffer `ids[k]`, below the root, and goes to its parent.
pub open spec fn climb_step<'p>(states: Seq<JoinLayer<'p>>, ids: Seq<int>, time: u64, k: int) -> bool {
    &&& 0 <= ids[k] < states[k].sub_pattern_buffers@.len() - 1
    &&& joined_once(states[k], states[k + 1], time, ids[k])
    &&& ids[k + 1] == states[k].parent_id_map@[ids[k]]
}

/// `post` is what joining from buffer `b` at `time` makes of `pre`: climbing towards the root
/// while the parent reached has new matches, and answering at the root when it is reached.
pub open spec fn join_done<'p>(pre: JoinLayer<'p>, post: JoinLayer<'p>, time: u64, b: int) -> bool {
    exists|states: Seq<JoinLayer<'p>>, ids: Seq<int>| {
        &&& #[trigger] join_path(states, ids, time)
        &&& states[0] == pre
        &&& ids[0] == b
        &&& {
            let n = states.len();
            let last = states[n - 1];
            let i = ids[n - 1];
            ||| i == last.sub_pattern_buffers@.len() - 1 && (n == 1 || has_new(last, i)) && answered(last, post)
            ||| n >= 2 && !has_new(last, i) && post == last
        }
    }
}

proof fn lemma_unexpired_subset(s: Seq<SubPatternMatch>, bound: u64, k: int)
    requires
        0 <= k < unexpired(s, bound).len(),
    ensures
        s.contains(unexpired(s, bound)[k]),
    decreases s.len(),
{
    let rest = unexpired(s.drop_last(), bound);
    if k < rest.len() {
        lemma_unexpired_subset(s.drop_last(), bound, k);
        let j = choose|j: int| 0 <= j < s.drop_last().len() && s.drop_last()[j] == rest[k];
        assert(s[j] == rest[k]);
    } else {
        assert(s[s.len() - 1] == s.last());
    }
}

/// Converts the matches of a buffer into complete pattern matches, emptying it.
fn pattern_match_conversion(buffer: &mut Vec<SubPatternMatch>) -> (res: Vec<PatternMatch>)
    ensures
        res@ == old(buffer)@.map_values(|m: SubPatternMatch| to_pattern_match(m)),
        final(buffer)@.len() == 0,
{
    let mut taken: Vec<SubPatternMatch> = Vec::new();
    std::mem::swap(&mut taken, buffer);
    let ghost all = taken@;
    let mut res: Vec<PatternMatch> = Vec::new();
    for m in it: taken.into_iter()
        invariant
            it.seq() == all,
            res@ == all.take(it.index()).map_values(|m: SubPatternMatch| to_pattern_match(m)),
    {
        let ghost before = res@;
        res.push(PatternMatch::from(m));
        proof {
            assert(all.take(it.index() + 1) =~= all.take(it.index()).push(m));
            assert(res@ =~= all.take(it.index() + 1).map_values(|m: SubPatternMatch| to_pattern_match(m)));
        }
    }
    assert(all.take(all.len() as int) =~= all);
    res
}

impl<'p> JoinLayer<'p> {
    /// A match instance of sub-pattern `sub_pattern_id` that the layer can take.
    pub open spec fn instance_fits(&self, sub_pattern_id: u32, inst: MatchInstance) -> bool {
        &&& (sub_pattern_id as int) < self.sub_pattern_buffers@.len()
        &&& keys_sorted(inst.match_entities@)
        &&& pattern_ids_below(inst.match_entities@, self.pattern.entities@.len())
        &&& forall|i: int| 0 <= i < inst.match_events@.len() ==> (#[trigger] inst.match_events@[i]).match_id
            < self.pattern.events@.len() && inst.match_events@[i].raw_events.well_formed()
    }

    /// Whether `instance_fits` holds: the instance can be given to `accept`.
    pub fn can_accept(&self, sub_pattern_id: u32, inst: &MatchInstance) -> (res: bool)
        ensures
            res == self.instance_fits(sub_pattern_id, *inst),
    {
        if sub_pattern_id as usize >= self.sub_pattern_buffers.len() {
            return false;
        }
        let entities = &inst.match_entities;
        let num_entities = self.pattern.entities.len();
        let mut k: usize = 0;
        while k < entities.len()
            invariant
                k <= entities@.len(),
                entities@ == inst.match_entities@,
                num_entities == self.pattern.entities@.len(),
                forall|i: int, j: int| 0 <= i < j < k ==> entities@[i].0 < entities@[j].0,
                forall|i: int| 0 <= i < k ==> entities@[i].1 < num_entities,
            decreases entities@.len() - k,
        {
            if entities[k].1 as u128 >= num_entities as u128 {
                proof {
                    assert(!pattern_ids_below(inst.match_entities@, self.pattern.entities@.len())) by {
                        assert(inst.match_entities@[k as int].1 >= self.pattern.entities@.len());
                    }
                }
                return false;
            }
            if k > 0 && entities[k - 1].0 >= entities[k].0 {
                proof {
                    assert(!keys_sorted(inst.match_entities@)) by {
                        assert(inst.match_entities@[k - 1].0 >= inst.match_entities@[k as int].0);
                    }
                }
                return false;
            }
            proof {
                assert forall|i: int, j: int| 0 <= i < j < k + 1 implies entities@[i].0 < entities@[j].0 by {
                    if j == k && i < k - 1 {
                        assert(entities@[i].0 < entities@[k - 1].0);
                    }
                }
            }
            k += 1;
        }
        let num_events = self.pattern.events.len();
        let mut t: usize = 0;
        while t < inst.match_events.len()
            invariant
                t <= inst.match_events@.len(),
                num_events == self.pattern.events@.len(),
                forall|i: int| 0 <= i < t ==> (#[trigger] inst.match_events@[i]).match_id < num_events
                    && inst.match_events@[i].raw_events.well_formed(),
            decreases inst.match_events@.len() - t,
        {
            let event = &inst.match_events[t];
            if event.match_id as u128 >= num_events as u128 {
                return false;
            }
            if let RawEvents::Multiple(events) = &event.raw_events {
                if events.len() == 0 {
                    return false;
                }
            }
            t += 1;
        }
        true
    }

    /// Joins the new matches of buffer `my_id` with the matches of its sibling `sibling_id`.
    fn join_with_sibling(&self, my_id: usize, sibling_id: usize) -> (res: Vec<SubPatternMatch>)
        requires
            self.runtime_ok(),
            my_id < self.sub_pattern_buffers@.len() - 1,
            sibling_id < self.sub_pattern_buffers@.len(),
        ensures
            ({
                let buf = self.sub_pattern_buffers@[my_id as int];
                let ms1 = buf.new_match_buffer@;
                let ms2 = self.sub_pattern_buffers@[sibling_id as int].buffer@;
                let pairs = ok_pairs(ms1.len() as int, ms2.len() as int, merge_ok(buf, ms1, ms2));
                &&& res@.len() == pairs.len()
                &&& forall|k: int| 0 <= k < pairs.len() ==> is_merge_of(buf, ms1[pairs[k].0], ms2[pairs[k].1], #[trigger] res@[k])
            }),
            self.matches_ok(res@),
    {
        let buf = &self.sub_pattern_buffers[my_id];
        let buffer1 = &buf.new_match_buffer;
        let buffer2 = &self.sub_pattern_buffers[sibling_id].buffer;
        let ghost ms1 = buffer1@;
        let ghost ms2 = buffer2@;
        let ghost ok = merge_ok(*buf, ms1, ms2);
        let ghost num_events = self.pattern.events@.len();
        let ghost num_entities = self.pattern.entities@.len();
        assert(self.matches_ok(ms1));
        assert(self.matches_ok(ms2));
        assert(my_id < self.parent_id_map@[my_id as int]);
        assert(sub_pattern_buffer::orders_below(buf.relation.event_orders@, num_events));
        let mut matches_to_parent: Vec<SubPatternMatch> = Vec::new();
        let mut p: usize = 0;
        while p < buffer1.len()
            invariant
                self.runtime_ok(),
                my_id < self.sub_pattern_buffers@.len() - 1,
                *buf == self.sub_pattern_buffers@[my_id as int],
                ms1 == buffer1@,
                ms2 == buffer2@,
                *buffer1 == buf.new_match_buffer,
                ok == merge_ok(*buf, ms1, ms2),
                num_events == self.pattern.events@.len(),
                num_entities == self.pattern.entities@.len(),
                self.matches_ok(ms1),
                self.matches_ok(ms2),
                sub_pattern_buffer::orders_below(buf.relation.event_orders@, num_events),
                p <= ms1.len(),
                matches_to_parent@.len() == ok_pairs(p as int, ms2.len() as int, ok).len(),
                forall|k: int| 0 <= k < matches_to_parent@.len() ==> is_merge_of(*buf, ms1[ok_pairs(p as int, ms2.len() as int, ok)[k].0],
                    ms2[ok_pairs(p as int, ms2.len() as int, ok)[k].1], #[trigger] matches_to_parent@[k]),
            decreases ms1.len() - p,
        {
            let ghost before = matches_to_parent@;
            let mut q: usize = 0;
            while q < buffer2.len()
                invariant
                    self.runtime_ok(),
                    my_id < self.sub_pattern_buffers@.len() - 1,
                    *buf == self.sub_pattern_buffers@[my_id as int],
                    ms1 == buffer1@,
                    ms2 == buffer2@,
                    ok == merge_ok(*buf, ms1, ms2),
                    num_events == self.pattern.events@.len(),
                    num_entities == self.pattern.entities@.len(),
                    self.matches_ok(ms1),
                    self.matches_ok(ms2),
                    sub_pattern_buffer::orders_below(buf.relation.event_orders@, num_events),
                    p < ms1.len(),
                    q <= ms2.len(),
                    before.len() == ok_pairs(p as int, ms2.len() as int, ok).len(),
                    matches_to_parent@.len() == before.len() + row_pairs(p as int, q as int, ok).len(),
                    forall|k: int| 0 <= k < before.len() ==> #[trigger] matches_to_parent@[k] == before[k],
                    forall|k: int| 0 <= k < before.len() ==> is_merge_of(*buf, ms1[ok_pairs(p as int, ms2.len() as int, ok)[k].0],
                        ms2[ok_pairs(p as int, ms2.len() as int, ok)[k].1], #[trigger] before[k]),
                    forall|k: int| 0 <= k < row_pairs(p as int, q as int, ok).len() ==> is_merge_of(*buf, ms1[row_pairs(p as int, q as int, ok)[k].0],
                        ms2[row_pairs(p as int, q as int, ok)[k].1], #[trigger] matches_to_parent@[before.len() + k]),
                decreases ms2.len() - q,
            {
                let m1 = &buffer1[p];
                let m2 = &buffer2[q];
                assert(m1.well_formed(num_events, num_entities));
                assert(m2.well_formed(num_events, num_entities));
                if let Some(merged) = SubPatternMatch::merge_matches(buf, m1, m2) {
                    matches_to_parent.push(merged);
                } else {
                }
                proof {
                    assert(ok(p as int, q as int) == can_merge(*buf, ms1[p as int], ms2[q as int]));
                    let r0 = row_pairs(p as int, q as int, ok);
                    let r1 = row_pairs(p as int, q + 1, ok);
                    if ok(p as int, q as int) {
                        assert(r1 == r0.push((p as int, q as int)));
                    } else {
                        assert(r1 == r0);
                    }
                }
                q += 1;
            }
            proof {
                let prev = ok_pairs(p as int, ms2.len() as int, ok);
                let row = row_pairs(p as int, ms2.len() as int, ok);
                let next = ok_pairs(p + 1, ms2.len() as int, ok);
                assert(next == prev + row);
                assert forall|k: int| 0 <= k < matches_to_parent@.len() implies is_merge_of(*buf, ms1[next[k].0],
                    ms2[next[k].1], #[trigger] matches_to_parent@[k]) by {
                    if k < prev.len() {
                        assert(next[k] == prev[k]);
                    } else {
                        assert(next[k] == row[k - prev.len()]);
                        assert(matches_to_parent@[prev.len() + (k - prev.len())] == matches_to_parent@[k]);
                    }
                }
            }
            p += 1;
        }
        proof {
            let pairs = ok_pairs(ms1.len() as int, ms2.len() as int, ok);
            assert forall|k: int| 0 <= k < matches_to_parent@.len() implies (#[trigger] matches_to_parent@[k]).well_formed(
                num_events,
                num_entities,
            ) by {
                assert(is_merge_of(*buf, ms1[pairs[k].0], ms2[pairs[k].1], matches_to_parent@[k]));
                lemma_pair_in_range(ms1.len() as int, ms2.len() as int, ok, k);
                assert(ms1[pairs[k].0].well_formed(num_events, num_entities));
            }
        }
        matches_to_parent
    }

    /// Moves the matches of the root buffer into the complete matches.
    fn add_to_answer(&mut self)
        requires
            old(self).runtime_ok(),
        ensures
            final(self).runtime_ok(),
            final(self).same_shape(old(self)),
            ({
                let root = old(self).sub_pattern_buffers@[old(self).sub_pattern_buffers@.len() - 1];
                final(self).full_match@ == old(self).full_match@ + root.buffer@.map_values(
                    |m: SubPatternMatch| to_pattern_match(m),
                ) + root.new_match_buffer@.map_values(|m: SubPatternMatch| to_pattern_match(m))
            }),
            answered(*old(self), *final(self)),
    {
        let root_id = self.get_root_buffer_id();
        let mut converted = pattern_match_conversion(&mut self.sub_pattern_buffers[root_id].buffer);
        self.full_match.append(&mut converted);
        let mut converted_new = pattern_match_conversion(&mut self.sub_pattern_buffers[root_id].new_match_buffer);
        self.full_match.append(&mut converted_new);
        proof {
            let bufs = self.sub_pattern_buffers@;
            assert forall|x: int| 0 <= x < bufs.len() implies {
                &&& (#[trigger] bufs[x]).max_num_entities == self.pattern.entities@.len()
                &&& self.matches_ok(bufs[x].buffer@)
                &&& self.matches_ok(bufs[x].new_match_buffer@)
            } by {
                if x != root_id {
                    assert(bufs[x] == old(self).sub_pattern_buffers@[x]);
                }
            }
            let v = match_lists(*old(self));
            assert(match_lists(*self) =~= v.update(root_id as int, (Seq::<SubPatternMatch>::empty(), Seq::<SubPatternMatch>::empty())));
            assert forall|x: int| 0 <= x < bufs.len() implies same_but_matches(old(self).sub_pattern_buffers@[x], #[trigger] bufs[x]) by {}
        }
    }
}

proof fn lemma_pair_in_range(n1: int, n2: int, ok: spec_fn(int, int) -> bool, k: int)
    requires
        0 <= k < ok_pairs(n1, n2, ok).len(),
    ensures
        0 <= ok_pairs(n1, n2, ok)[k].0 < n1,
        0 <= ok_pairs(n1, n2, ok)[k].1 < n2,
    decreases n1,
{
    if n1 > 0 {
        let prev = ok_pairs(n1 - 1, n2, ok);
        if k < prev.len() {
            lemma_pair_in_range(n1 - 1, n2, ok, k);
        } else {
            lemma_row_in_range(n1 - 1, n2, ok, k - prev.len());
        }
    }
}

proof fn lemma_row_in_range(p: int, n2: int, ok: spec_fn(int, int) -> bool, k: int)
    requires
        0 <= k < row_pairs(p, n2, ok).len(),
    ensures
        row_pairs(p, n2, ok)[k].0 == p,
        0 <= row_pairs(p, n2, ok)[k].1 < n2,
    decreases n2,
{
    if n2 > 0 {
        let prev = row_pairs(p, n2 - 1, ok);
        if k < prev.len() {
            lemma_row_in_range(p, n2 - 1, ok, k);
        }
    }
}

/// One step of joining from buffer `b`, done as clearing the sibling (`cleared`), joining with
/// it (`j`) and moving the matches (`moved`), is [joined_once].
proof fn lemma_joined_once<'p>(
    cur: JoinLayer<'p>,
    cleared: JoinLayer<'p>,
    moved: JoinLayer<'p>,
    time: u64,
    b: int,
    j: Seq<SubPatternMatch>,
)
    requires
        0 <= b < cur.sub_pattern_buffers@.len(),
        0 <= cur.sibling_id_map@[b] < cur.sub_pattern_buffers@.len(),
        b < cur.parent_id_map@[b] < cur.sub_pattern_buffers@.len(),
        ({
            let s = cur.sibling_id_map@[b] as int;
            &&& cleared.pattern == cur.pattern
            &&& cleared.window_size == cur.window_size
            &&& cleared.sibling_id_map@ == cur.sibling_id_map@
            &&& cleared.parent_id_map@ == cur.parent_id_map@
            &&& cleared.full_match@ == cur.full_match@
            &&& cleared.sub_pattern_buffers@.len() == cur.sub_pattern_buffers@.len()
            &&& cleared.sub_pattern_buffers@[s].buffer@ == unexpired(
                cur.sub_pattern_buffers@[s].buffer@,
                window_bound(time, cur.window_size),
            )
            &&& cleared.sub_pattern_buffers@[s].new_match_buffer@ == cur.sub_pattern_buffers@[s].new_match_buffer@
            &&& same_but_matches(cur.sub_pattern_buffers@[s], cleared.sub_pattern_buffers@[s])
            &&& forall|x: int| 0 <= x < cur.sub_pattern_buffers@.len() && x != s
                ==> #[trigger] cleared.sub_pattern_buffers@[x] == cur.sub_pattern_buffers@[x]
        }),
        ({
            let s = cur.sibling_id_map@[b] as int;
            let buf = cleared.sub_pattern_buffers@[b];
            let ms1 = buf.new_match_buffer@;
            let ms2 = cleared.sub_pattern_buffers@[s].buffer@;
            let pairs = ok_pairs(ms1.len() as int, ms2.len() as int, merge_ok(buf, ms1, ms2));
            &&& j.len() == pairs.len()
            &&& forall|k: int| 0 <= k < pairs.len() ==> is_merge_of(buf, ms1[pairs[k].0], ms2[pairs[k].1], #[trigger] j[k])
        }),
        ({
            let p = cur.parent_id_map@[b] as int;
            let cb = cleared.sub_pattern_buffers@;
            let mb = moved.sub_pattern_buffers@;
            &&& moved.pattern == cleared.pattern
            &&& moved.window_size == cleared.window_size
            &&& moved.sibling_id_map@ == cleared.sibling_id_map@
            &&& moved.parent_id_map@ == cleared.parent_id_map@
            &&& moved.full_match@ == cleared.full_match@
            &&& mb.len() == cb.len()
            &&& mb[p].new_match_buffer@ == cb[p].new_match_buffer@ + j
            &&& mb[p].buffer@ == cb[p].buffer@
            &&& same_but_matches(cb[p], mb[p])
            &&& mb[b].buffer@ == cb[b].buffer@ + cb[b].new_match_buffer@
            &&& mb[b].new_match_buffer@.len() == 0
            &&& same_but_matches(cb[b], mb[b])
            &&& forall|x: int| 0 <= x < cb.len() && x != p && x != b ==> #[trigger] mb[x] == cb[x]
        }),
    ensures
        joined_once(cur, moved, time, b),
{
    let v = match_lists(cur);
    let s = cur.sibling_id_map@[b] as int;
    let p = cur.parent_id_map@[b] as int;
    let bound = window_bound(time, cur.window_size);
    let sib = unexpired(v[s].0, bound);
    let ms1 = v[b].1;
    let buf = cur.sub_pattern_buffers@[b];
    let cbuf = cleared.sub_pattern_buffers@[b];
    assert(cbuf.new_match_buffer@ == ms1);
    assert(cleared.sub_pattern_buffers@[s].buffer@ == sib);
    assert(same_but_matches(buf, cbuf));
    assert(merge_ok(cbuf, ms1, sib) =~= merge_ok(buf, ms1, sib));
    let pairs = ok_pairs(ms1.len() as int, sib.len() as int, merge_ok(buf, ms1, sib));
    assert forall|k: int| 0 <= k < pairs.len() implies is_merge_of(buf, ms1[pairs[k].0], sib[pairs[k].1], #[trigger] j[k]) by {
        assert(is_merge_of(cbuf, ms1[pairs[k].0], sib[pairs[k].1], j[k]));
    }
    let target = after_join_step(v, s, p, b, bound, j);
    assert(match_lists(moved) =~= target) by {
        assert forall|x: int| 0 <= x < target.len() implies #[trigger] match_lists(moved)[x] == target[x] by {
            if x != s && x != p && x != b {
                assert(moved.sub_pattern_buffers@[x] == cur.sub_pattern_buffers@[x]);
            } else if x != s && x != p {
                assert(cleared.sub_pattern_buffers@[x] == cur.sub_pattern_buffers@[x]);
            } else if x != s && x != b {
                assert(cleared.sub_pattern_buffers@[x] == cur.sub_pattern_buffers@[x]);
            } else if x != p && x != b {
                assert(moved.sub_pattern_buffers@[x] == cleared.sub_pattern_buffers@[x]);
            }
        }
    }
    assert forall|x: int| 0 <= x < cur.sub_pattern_buffers@.len()
        implies same_but_matches(cur.sub_pattern_buffers@[x], #[trigger] moved.sub_pattern_buffers@[x]) by {
        if x != s {
            assert(cleared.sub_pattern_buffers@[x] == cur.sub_pattern_buffers@[x]);
        }
        if x != p && x != b {
            assert(moved.sub_pattern_buffers@[x] == cleared.sub_pattern_buffers@[x]);
        }
    }
}

/// A climb extends by one more step from its last layer to `next`, the climb having gone on from
/// that layer.
proof fn lemma_extend_path<'p>(states: Seq<JoinLayer<'p>>, ids: Seq<int>, next: JoinLayer<'p>, time: u64)
    requires
        join_path(states, ids, time),
        ({
            let n = states.len();
            &&& 0 <= ids[n - 1] < states[n - 1].sub_pattern_buffers@.len() - 1
            &&& joined_once(states[n - 1], next, time, ids[n - 1])
            &&& n >= 2 ==> has_new(states[n - 1], ids[n - 1])
        }),
    ensures
        join_path(states.push(next), ids.push(states[states.len() - 1].parent_id_map@[ids[ids.len() - 1]] as int), time),
{
    let n = states.len();
    let p = states[n - 1].parent_id_map@[ids[n - 1]] as int;
    let states2 = states.push(next);
    let ids2 = ids.push(p);
    assert forall|k: int| 0 <= k < states2.len() - 1 implies #[trigger] climb_step(states2, ids2, time, k) by {
        if k < n - 1 {
            assert(climb_step(states, ids, time, k));
            assert(states2[k] == states[k] && states2[k + 1] == states[k + 1]);
            assert(ids2[k] == ids[k] && ids2[k + 1] == ids[k + 1]);
        } else {
            assert(states2[k] == states[n - 1] && states2[k + 1] == next);
            assert(ids2[k] == ids[n - 1] && ids2[k + 1] == p);
        }
    }
    assert forall|k: int| 1 <= k < states2.len() - 1 implies has_new(#[trigger] states2[k], ids2[k]) by {
        assert(states2[k] == states[k] && ids2[k] == ids[k]);
        if k < n - 1 {
            assert(has_new(states[k], ids[k]));
        }
    }
    assert(join_path(states2, ids2, time));
}

impl<'p> JoinLayer<'p> {
    /// Joins bottom-up: the new matches of `buffer_id` are joined with its sibling's matches,
    /// the results go to the parent as its new matches, and so on until no new match appears
    /// or the root is reached, whose matches become complete matches.
    fn join(&mut self, current_time: u64, buffer_id: usize)
        requires
            old(self).runtime_ok(),
            buffer_id < old(self).sub_pattern_buffers@.len(),
        ensures
            final(self).runtime_ok(),
            final(self).same_shape(old(self)),
            final(self).full_match@.take(old(self).full_match@.len() as int) == old(self).full_match@,
            final(self).full_match@.len() >= old(self).full_match@.len(),
            join_done(*old(self), *final(self), current_time, buffer_id as int),
    {
        let ghost start = *self;
        let ghost b0 = buffer_id as int;
        let mut buffer_id = buffer_id;
        let ghost mut states: Seq<JoinLayer<'p>> = seq![*self];
        let ghost mut ids: Seq<int> = seq![buffer_id as int];
        loop
            invariant_except_break
                states[states.len() - 1] == *self,
                ids[ids.len() - 1] == buffer_id as int,
                states.len() >= 2 ==> has_new(*self, buffer_id as int),
            invariant
                self.runtime_ok(),
                self.same_shape(&start),
                buffer_id < self.sub_pattern_buffers@.len(),
                self.full_match@.take(start.full_match@.len() as int) == start.full_match@,
                self.full_match@.len() >= start.full_match@.len(),
                join_path(states, ids, current_time),
                states[0] == start,
                ids[0] == b0,
            ensures
                self.runtime_ok(),
                self.same_shape(&start),
                self.full_match@.take(start.full_match@.len() as int) == start.full_match@,
                self.full_match@.len() >= start.full_match@.len(),
                join_done(start, *self, current_time, b0),
            decreases self.sub_pattern_buffers@.len() - buffer_id,
        {
            if buffer_id == self.get_root_buffer_id() {
                let ghost before = *self;
                self.add_to_answer();
                proof {
                    let f = self.full_match@;
                    assert(f.take(before.full_match@.len() as int) =~= before.full_match@);
                    assert(f.take(start.full_match@.len() as int) =~= before.full_match@.take(start.full_match@.len() as int));
                    let n = states.len();
                    assert(ids[n - 1] == states[n - 1].sub_pattern_buffers@.len() - 1);
                    assert(join_path(states, ids, current_time) && states[0] == start && ids[0] == b0);
                }
                break;
            }
            let ghost cur = *self;
            assert(buffer_id < self.parent_id_map@[buffer_id as int]);
            let sibling_id = self.get_sibling_id(buffer_id);
            let ghost before_clear = *self;
            self.clear_expired(current_time, sibling_id);
            proof {
                let bufs = self.sub_pattern_buffers@;
                assert forall|x: int| 0 <= x < bufs.len() implies {
                    &&& (#[trigger] bufs[x]).max_num_entities == self.pattern.entities@.len()
                    &&& self.matches_ok(bufs[x].buffer@)
                    &&& self.matches_ok(bufs[x].new_match_buffer@)
                } by {
                    if x == sibling_id {
                        let old_buf = before_clear.sub_pattern_buffers@[x].buffer@;
                        let bound = if current_time >= self.window_size { (current_time - self.window_size) as u64 } else { 0 };
                        assert forall|k: int| 0 <= k < bufs[x].buffer@.len() implies (#[trigger] bufs[x].buffer@[k]).well_formed(
                            self.pattern.events@.len(),
                            self.pattern.entities@.len(),
                        ) by {
                            lemma_unexpired_subset(old_buf, bound, k);
                            let j = choose|j: int| 0 <= j < old_buf.len() && old_buf[j] == bufs[x].buffer@[k];
                            assert(before_clear.matches_ok(old_buf));
                            assert(old_buf[j].well_formed(self.pattern.events@.len(), self.pattern.entities@.len()));
                        }
                    } else {
                        assert(bufs[x] == before_clear.sub_pattern_buffers@[x]);
                    }
                }
                assert forall|x: int| 0 <= x < bufs.len() - 1 implies {
                    &&& x < #[trigger] self.parent_id_map@[x] < bufs.len()
                    &&& self.sibling_id_map@[x] < bufs.len()
                    &&& sub_pattern_buffer::orders_below(bufs[x].relation.event_orders@, self.pattern.events@.len())
                } by {
                    assert(x < before_clear.parent_id_map@[x]);
                }
            }
            let ghost cleared = *self;
            let mut joined = self.join_with_sibling(buffer_id, sibling_id);
            let parent_id = self.get_parent_id(buffer_id);
            let ghost before_move = *self;
            let ghost joined_seq = joined@;
            self.sub_pattern_buffers[parent_id].new_match_buffer.append(&mut joined);
            let mut new_matches: Vec<SubPatternMatch> = Vec::new();
            std::mem::swap(&mut new_matches, &mut self.sub_pattern_buffers[buffer_id].new_match_buffer);
            self.sub_pattern_buffers[buffer_id].buffer.append(&mut new_matches);
            proof {
                let bufs = self.sub_pattern_buffers@;
                let old_bufs = before_move.sub_pattern_buffers@;
                assert(buffer_id != parent_id);
                assert forall|x: int| 0 <= x < bufs.len() implies {
                    &&& (#[trigger] bufs[x]).max_num_entities == self.pattern.entities@.len()
                    &&& self.matches_ok(bufs[x].buffer@)
                    &&& self.matches_ok(bufs[x].new_match_buffer@)
                } by {
                    assert(before_move.matches_ok(old_bufs[x].buffer@));
                    assert(before_move.matches_ok(old_bufs[x].new_match_buffer@));
                    if x == parent_id {
                        let a = old_bufs[x].new_match_buffer@;
                        assert(bufs[x].new_match_buffer@ == a + joined_seq);
                        assert forall|k: int| 0 <= k < (a + joined_seq).len() implies (#[trigger] (a + joined_seq)[k]).well_formed(
                            self.pattern.events@.len(),
                            self.pattern.entities@.len(),
                        ) by {
                            if k < a.len() {
                                assert((a + joined_seq)[k] == a[k]);
                            } else {
                                assert((a + joined_seq)[k] == joined_seq[k - a.len()]);
                            }
                        }
                        assert(bufs[x].buffer == old_bufs[x].buffer);
                    } else if x == buffer_id {
                        let a = old_bufs[x].buffer@;
                        let b = old_bufs[x].new_match_buffer@;
                        assert(bufs[x].buffer@ == a + b);
                        assert forall|k: int| 0 <= k < (a + b).len() implies (#[trigger] (a + b)[k]).well_formed(
                            self.pattern.events@.len(),
                            self.pattern.entities@.len(),
                        ) by {
                            if k < a.len() {
                                assert((a + b)[k] == a[k]);
                            } else {
                                assert((a + b)[k] == b[k - a.len()]);
                            }
                        }
                    } else {
                        assert(bufs[x] == old_bufs[x]);
                    }
                }
                assert forall|x: int| 0 <= x < bufs.len() - 1 implies {
                    &&& x < #[trigger] self.parent_id_map@[x] < bufs.len()
                    &&& self.sibling_id_map@[x] < bufs.len()
                    &&& sub_pattern_buffer::orders_below(bufs[x].relation.event_orders@, self.pattern.events@.len())
                } by {
                    assert(x < before_move.parent_id_map@[x]);
                }
                assert forall|x: int| 0 <= x < old_bufs.len() && x != parent_id && x != buffer_id
                    implies #[trigger] bufs[x] == old_bufs[x] by {}
                lemma_joined_once(cur, cleared, *self, current_time, buffer_id as int, joined_seq);
                lemma_extend_path(states, ids, *self, current_time);
                states = states.push(*self);
                ids = ids.push(parent_id as int);
            }
            if self.sub_pattern_buffers[parent_id].new_match_buffer.len() == 0 {
                proof {
                    let n = states.len();
                    assert(states[n - 1] == *self && ids[n - 1] == parent_id as int);
                    assert(!has_new(*self, parent_id as int));
                }
                break;
            }
            buffer_id = parent_id;
        }
    }
}

/// What one call of `accept` does: `after` is `before` once the match instance `match_instance`
/// of sub-pattern `sub_pattern_id` has been taken and joined up the tree.
pub open spec fn accept_step<'p>(
    before: JoinLayer<'p>,
    sub_pattern_id: u32,
    match_instance: MatchInstance,
    after: JoinLayer<'p>,
) -> bool {
    &&& after.same_shape(&before)
    &&& after.full_match@.take(before.full_match@.len() as int) == before.full_match@
    &&& after.full_match@.len() >= before.full_match@.len()
    &&& match_instance.match_events@.len() == 0 ==> after == before
    &&& match_instance.match_events@.len() > 0 ==> exists|m: SubPatternMatch, mid: JoinLayer<'p>|
        #![trigger built_from(m, sub_pattern_id, match_instance, before.pattern.events@.len()), same_but_lists(before, mid)]
        {
            let lists = match_lists(before);
            let b = m.id as int;
            &&& built_from(m, sub_pattern_id, match_instance, before.pattern.events@.len())
            &&& same_but_lists(before, mid)
            &&& mid.full_match@ == before.full_match@
            &&& match_lists(mid) == lists.update(b, (lists[b].0, lists[b].1.push(m)))
            &&& join_done(mid, after, m.latest_time, b)
        }
}

/// `end` is reached from `start` by one accept step for each entry of `items`, in order.
pub open spec fn accept_run<'p>(start: JoinLayer<'p>, items: Seq<(u32, MatchInstance)>, end: JoinLayer<'p>) -> bool {
    exists|states: Seq<JoinLayer<'p>>|
        #![trigger states.len(), states[0]]
        {
            &&& states.len() == items.len() + 1
            &&& states[0] == start
            &&& states.last() == end
            &&& forall|i: int| 0 <= i < items.len() ==> #[trigger] accept_step(states[i], items[i].0, items[i].1, states[i + 1])
        }
}

impl<'p> JoinLayer<'p> {
    /// Takes a complete match instance of sub-pattern `sub_pattern_id`: it becomes a new match
    /// of the sub-pattern's buffer, which is then joined up the tree.
    pub fn accept(&mut self, sub_pattern_id: u32, match_instance: MatchInstance)
        requires
            old(self).runtime_ok(),
            old(self).instance_fits(sub_pattern_id, match_instance),
        ensures
            final(self).runtime_ok(),
            final(self).same_shape(old(self)),
            final(self).full_match@.take(old(self).full_match@.len() as int) == old(self).full_match@,
            final(self).full_match@.len() >= old(self).full_match@.len(),
            match_instance.match_events@.len() == 0 ==> *final(self) == *old(self),
            match_instance.match_events@.len() > 0 ==> exists|m: SubPatternMatch, mid: JoinLayer<'p>|
                #![trigger built_from(m, sub_pattern_id, match_instance, old(self).pattern.events@.len()), same_but_lists(*old(self), mid)]
                {
                    let lists = match_lists(*old(self));
                    let b = m.id as int;
                    &&& built_from(m, sub_pattern_id, match_instance, old(self).pattern.events@.len())
                    &&& same_but_lists(*old(self), mid)
                    &&& mid.full_match@ == old(self).full_match@
                    &&& match_lists(mid) == lists.update(b, (lists[b].0, lists[b].1.push(m)))
                    &&& join_done(mid, *final(self), m.latest_time, b)
                },
    {
        let num_pat_event = self.pattern.events.len();
        if let Some(sub_match) = SubPatternMatch::build(sub_pattern_id, match_instance, num_pat_event) {
            let buffer_id = get_buffer_id(sub_match.id);
            let current_time = sub_match.latest_time;
            let ghost before = *self;
            self.sub_pattern_buffers[buffer_id].new_match_buffer.push(sub_match);
            proof {
                let bufs = self.sub_pattern_buffers@;
                assert(sub_match.well_formed(self.pattern.events@.len(), self.pattern.entities@.len()));
                assert forall|x: int| 0 <= x < bufs.len() implies {
                    &&& (#[trigger] bufs[x]).max_num_entities == self.pattern.entities@.len()
                    &&& self.matches_ok(bufs[x].buffer@)
                    &&& self.matches_ok(bufs[x].new_match_buffer@)
                } by {
                    let old_buf = before.sub_pattern_buffers@[x];
                    assert(before.matches_ok(old_buf.new_match_buffer@));
                    if x == buffer_id {
                        assert(bufs[x].new_match_buffer@ == old_buf.new_match_buffer@.push(sub_match));
                    } else {
                        assert(bufs[x] == old_buf);
                    }
                }
                assert forall|x: int| 0 <= x < bufs.len() - 1 implies {
                    &&& x < #[trigger] self.parent_id_map@[x] < bufs.len()
                    &&& self.sibling_id_map@[x] < bufs.len()
                    &&& sub_pattern_buffer::orders_below(bufs[x].relation.event_orders@, self.pattern.events@.len())
                } by {
                    assert(x < before.parent_id_map@[x]);
                }
            }
            let ghost before_join = *self;
            proof {
                let lists = match_lists(before);
                let b = sub_match.id as int;
                assert(match_lists(before_join) =~= lists.update(b, (lists[b].0, lists[b].1.push(sub_match))));
                assert forall|x: int| 0 <= x < before.sub_pattern_buffers@.len()
                    implies same_but_matches(before.sub_pattern_buffers@[x], #[trigger] before_join.sub_pattern_buffers@[x]) by {}
            }
            self.join(current_time, buffer_id);
            proof {
                assert(self.full_match@.take(before.full_match@.len() as int) =~= self.full_match@.take(
                    before_join.full_match@.len() as int,
                ));
                assert(built_from(sub_match, sub_pattern_id, match_instance, before.pattern.events@.len()));
                assert(same_but_lists(before, before_join));
            }
        }
    }

    /// Takes every complete match instance of `match_instances`, in order, leaving it empty.
    pub fn run_isolated_join_layer(&mut self, match_instances: &mut Vec<(u32, MatchInstance)>)
        requires
            old(self).runtime_ok(),
            forall|i: int| 0 <= i < old(match_instances)@.len() ==> old(self).instance_fits(
                #[trigger] old(match_instances)@[i].0,
                old(match_instances)@[i].1,
            ),
        ensures
            final(self).runtime_ok(),
            final(self).same_shape(old(self)),
            final(self).full_match@.take(old(self).full_match@.len() as int) == old(self).full_match@,
            final(self).full_match@.len() >= old(self).full_match@.len(),
            final(match_instances)@.len() == 0,
            accept_run(*old(self), old(match_instances)@, *final(self)),
    {
        let mut taken: Vec<(u32, MatchInstance)> = Vec::new();
        std::mem::swap(&mut taken, match_instances);
        let ghost all = taken@;
        let ghost start = *self;
        let ghost mut states: Seq<JoinLayer<'p>> = seq![start];
        for entry in it: taken.into_iter()
            invariant
                it.seq() == all,
                states.len() == it.index() + 1,
                states[0] == start,
                states.last() == *self,
                forall|i: int| 0 <= i < it.index() ==> #[trigger] accept_step(states[i], all[i].0, all[i].1, states[i + 1]),
                self.runtime_ok(),
                self.same_shape(&start),
                self.full_match@.take(start.full_match@.len() as int) == start.full_match@,
                self.full_match@.len() >= start.full_match@.len(),
                forall|i: int| 0 <= i < all.len() ==> start.instance_fits(#[trigger] all[i].0, all[i].1),
        {
            let (sub_pattern_id, match_instance) = entry;
            assert(all[it.index()] == entry);
            assert(start.instance_fits(sub_pattern_id, match_instance));
            let ghost before = *self;
            self.accept(sub_pattern_id, match_instance);
            proof {
                assert(self.full_match@.take(start.full_match@.len() as int) =~= self.full_match@.take(
                    before.full_match@.len() as int,
                ).take(start.full_match@.len() as int));
                assert(accept_step(before, sub_pattern_id, match_instance, *self));
                let k = it.index() as int;
                let s0 = states;
                states = states.push(*self);
                assert forall|i: int| 0 <= i < k + 1 implies #[trigger] accept_step(states[i], all[i].0, all[i].1, states[i + 1]) by {
                    if i < k {
                        assert(states[i] == s0[i] && states[i + 1] == s0[i + 1]);
                    } else {
                        assert(states[i] == before);
                    }
                }
            }
        }
        proof {
            assert(states.len() == all.len() + 1);
        }
    }

    /// Hands out the last complete match found, if any.
    pub fn pop_full_match(&mut self) -> (res: Option<PatternMatch>)
        ensures
            old(self).full_match@.len() == 0 ==> res is None && final(self).full_match@ == old(self).full_match@,
            old(self).full_match@.len() > 0 ==> res == Some(old(self).full_match@.last())
                && final(self).full_match@ == old(self).full_match@.drop_last(),
            final(self).sub_pattern_buffers == old(self).sub_pattern_buffers,
            final(self).sibling_id_map == old(self).sibling_id_map,
            final(self).parent_id_map == old(self).parent_id_map,
            final(self).pattern == old(self).pattern,
            final(self).window_size == old(self).window_size,
    {
        self.full_match.pop()
    }
}

} // verus!
