use vstd::prelude::*;
use super::{Pattern, PatternEvent};
use super::order_relation::{has_cycle, is_walk, same_items, successors, shift_down};

verus! {

broadcast use vstd::seq_lib::group_seq_properties, vstd::multiset::group_multiset_axioms;

/// Decomposed sub-pattern of a behavioral pattern.
#[derive(Debug)]
pub struct SubPattern<'a> {
    /// sub-pattern id, given after decomposition
    pub id: usize,
    pub events: Vec<&'a PatternEvent>,
}

/// The two events share an entity.
pub open spec fn shares_entity(e1: PatternEvent, e2: PatternEvent) -> bool {
    ||| e1.subject.same_as(e2.subject)
    ||| e1.subject.same_as(e2.object)
    ||| e1.object.same_as(e2.subject)
    ||| e1.object.same_as(e2.object)
}

/// Check whether the event shares any entity (node) with one of `parents`; an empty list of
/// parents counts as sharing.
pub fn has_shared_node(edge: &PatternEvent, parents: &Vec<&PatternEvent>) -> (res: bool)
    ensures
        res == (parents@.len() == 0 || exists|k: int|
            0 <= k < parents@.len() && shares_entity(*edge, *parents@[k])),
{
    if parents.len() == 0 {
        return true;
    }
    let mut k: usize = 0;
    while k < parents.len()
        invariant
            0 <= k <= parents@.len(),
            forall|t: int| 0 <= t < k ==> !shares_entity(*edge, *parents@[t]),
        decreases parents@.len() - k,
    {
        let parent = parents[k];
        let node_shared = edge.subject == parent.subject || edge.subject == parent.object
            || edge.object == parent.subject || edge.object == parent.object;
        if node_shared {
            return true;
        }
        k += 1;
    }
    false
}

/// `sp` has an event with the given id.
pub open spec fn holds_event(sp: SubPattern, id: int) -> bool {
    exists|k: int| 0 <= k < sp.events@.len() && sp.events@[k].id == id
}

/// Every event id in `sp` is below `bound`.
pub open spec fn ids_below(sp: SubPattern, bound: nat) -> bool {
    forall|k: int| 0 <= k < sp.events@.len() ==> #[trigger] sp.events@[k].id < bound
}

/// No event id occurs in two of the sub-patterns.
pub open spec fn pairwise_disjoint(sps: Seq<SubPattern>) -> bool {
    forall|a: int, b: int, ka: int, kb: int|
        0 <= a < sps.len() && 0 <= b < sps.len() && a != b && 0 <= ka < sps[a].events@.len() && 0
            <= kb < sps[b].events@.len() ==> #[trigger] sps[a].events@[ka].id
            != #[trigger] sps[b].events@[kb].id
}

/// `sps` holds a sub-pattern made of the single event `id`.
pub open spec fn has_singleton(sps: Seq<SubPattern>, id: int) -> bool {
    exists|i: int| 0 <= i < sps.len() && sps[i].events@.len() == 1 && sps[i].events@[0].id == id
}

/// Some sub-pattern of `sps` holds the event `id`.
pub open spec fn covers(sps: Seq<SubPattern>, id: int) -> bool {
    exists|i: int| 0 <= i < sps.len() && #[trigger] holds_event(sps[i], id)
}

/// The two sub-patterns share an event.
pub open spec fn overlaps(a: SubPattern, b: SubPattern) -> bool {
    exists|x: int, y: int|
        0 <= x < a.events@.len() && 0 <= y < b.events@.len() && #[trigger] a.events@[x].id == #[trigger] b.events@[y].id
}

/// The two sub-patterns hold the same events.
pub open spec fn same_events(a: SubPattern, b: SubPattern) -> bool {
    a.events@ == b.events@
}

/// A sub-pattern of `sel` holds the events of `c`, or shares an event with `c` and is at least
/// as large.
pub open spec fn settled_by(c: SubPattern, sel: Seq<SubPattern>) -> bool {
    exists|j: int|
        #![trigger sel[j]]
        0 <= j < sel.len() && (same_events(sel[j], c) || (overlaps(sel[j], c) && sel[j].events@.len() >= c.events@.len()))
}

/// `sel` was picked from `cands` largest first: the events of every candidate are those of a
/// sub-pattern of `sel`, or it shares an event with a sub-pattern of `sel` at least as large.
pub open spec fn picked_largest_first(cands: Seq<SubPattern>, sel: Seq<SubPattern>) -> bool {
    forall|i: int| 0 <= i < cands.len() ==> #[trigger] settled_by(cands[i], sel)
}

/// Check whether an event (edge) of the sub-pattern is already selected.
pub fn contains_selected_edge(sub_pattern: &SubPattern, is_edge_selected: &[bool]) -> (res: bool)
    requires
        ids_below(*sub_pattern, is_edge_selected@.len()),
    ensures
        res == exists|k: int|
            0 <= k < sub_pattern.events@.len() && is_edge_selected@[sub_pattern.events@[k].id as int],
{
    let mut k: usize = 0;
    while k < sub_pattern.events.len()
        invariant
            0 <= k <= sub_pattern.events@.len(),
            ids_below(*sub_pattern, is_edge_selected@.len()),
            forall|t: int| 0 <= t < k ==> !is_edge_selected@[sub_pattern.events@[t].id as int],
        decreases sub_pattern.events@.len() - k,
    {
        if is_edge_selected[sub_pattern.events[k].id] {
            return true;
        }
        k += 1;
    }
    false
}

/// Sorts by number of events. Popping from the end of the result yields the sub-patterns from the
/// largest to the smallest, and equally large ones in their original order.
fn sort_for_selection<'a>(sub_patterns: Vec<SubPattern<'a>>) -> (res: Vec<SubPattern<'a>>)
    ensures
        res@.to_multiset() == sub_patterns@.to_multiset(),
        forall|i: int, j: int|
            0 <= i < j < res@.len() ==> res@[i].events@.len() <= res@[j].events@.len(),
{
    let mut input = sub_patterns;
    let mut res: Vec<SubPattern<'a>> = Vec::new();
    let ghost total = input@.to_multiset();
    proof {
        assert(res@.to_multiset() =~= vstd::multiset::Multiset::empty());
    }
    while input.len() > 0
        invariant
            res@.to_multiset().add(input@.to_multiset()) == total,
            forall|i: int, j: int|
                0 <= i < j < res@.len() ==> res@[i].events@.len() <= res@[j].events@.len(),
        decreases input@.len(),
    {
        let ghost before = input@;
        let x = input.pop().unwrap();
        proof {
            assert(before == input@.push(x));
        }
        let mut p: usize = 0;
        while p < res.len() && res[p].events.len() <= x.events.len()
            invariant
                0 <= p <= res@.len(),
                forall|t: int| 0 <= t < p ==> res@[t].events@.len() <= x.events@.len(),
            decreases res@.len() - p,
        {
            p += 1;
        }
        let ghost old_res = res@;
        res.insert(p, x);
        proof {
            assert(res@ == old_res.insert(p as int, x));
            assert forall|i: int, j: int|
                0 <= i < j < res@.len() implies res@[i].events@.len() <= res@[j].events@.len() by {
                if i < p && j == p {
                } else if i == p && j > p {
                    assert(res@[j] == old_res[j - 1]);
                } else if i < p && j > p {
                    assert(res@[j] == old_res[j - 1]);
                    assert(res@[i] == old_res[i]);
                } else if j < p {
                    assert(res@[j] == old_res[j]);
                    assert(res@[i] == old_res[i]);
                } else {
                    assert(res@[j] == old_res[j - 1]);
                    assert(res@[i] == old_res[i - 1]);
                }
            }
        }
    }
    proof {
        assert(input@ =~= Seq::<SubPattern<'a>>::empty());
        assert(input@.to_multiset() =~= vstd::multiset::Multiset::empty());
    }
    res
}

/// Select (heuristically) valid ones from all sub-patterns: the largest ones first, skipping
/// any that holds an already selected event.
pub fn select_sub_patterns<'a>(num_edges: usize, sub_patterns: Vec<SubPattern<'a>>) -> (res: Vec<
    SubPattern<'a>,
>)
    requires
        forall|i: int| 0 <= i < sub_patterns@.len() ==> ids_below(#[trigger] sub_patterns@[i], num_edges as nat),
    ensures
        forall|i: int| 0 <= i < res@.len() ==> sub_patterns@.contains(#[trigger] res@[i]),
        pairwise_disjoint(res@),
        forall|id: int| 0 <= id < num_edges && has_singleton(sub_patterns@, id) ==> covers(res@, id),
        picked_largest_first(sub_patterns@, res@),
{
    let ghost input = sub_patterns@;
    let mut sorted = sort_for_selection(sub_patterns);
    let ghost full = sorted@;
    proof {
        assert forall|i: int| 0 <= i < full.len() implies #[trigger] input.contains(full[i]) by {
            assert(full.contains(full[i]));
            assert(full.to_multiset().count(full[i]) > 0);
        }
        assert forall|i: int| 0 <= i < input.len() implies #[trigger] full.contains(input[i]) by {
            assert(input.contains(input[i]));
            assert(input.to_multiset().count(input[i]) > 0);
        }
    }
    let mut selected: Vec<SubPattern<'a>> = Vec::new();
    let mut is_edge_selected: Vec<bool> = Vec::new();
    let mut t: usize = 0;
    while t < num_edges
        invariant
            t <= num_edges,
            is_edge_selected@.len() == t,
            forall|u: int| 0 <= u < t ==> !is_edge_selected@[u],
        decreases num_edges - t,
    {
        is_edge_selected.push(false);
        t += 1;
    }
    while sorted.len() > 0
        invariant
            sorted@ == full.take(sorted@.len() as int),
            sorted@.len() <= full.len(),
            forall|i: int| 0 <= i < full.len() ==> #[trigger] input.contains(full[i]),
            forall|i: int| 0 <= i < input.len() ==> #[trigger] full.contains(input[i]),
            forall|i: int| 0 <= i < input.len() ==> ids_below(#[trigger] input[i], num_edges as nat),
            is_edge_selected@.len() == num_edges,
            forall|id: int| 0 <= id < num_edges ==> (#[trigger] is_edge_selected@[id] <==> covers(selected@, id)),
            forall|i: int| 0 <= i < selected@.len() ==> input.contains(#[trigger] selected@[i]),
            pairwise_disjoint(selected@),
            forall|i: int|
                sorted@.len() <= i < full.len() && full[i].events@.len() == 1 ==> covers(
                    selected@,
                    full[i].events@[0].id as int,
                ),
            forall|i: int, j: int| 0 <= i < j < full.len() ==> full[i].events@.len() <= full[j].events@.len(),
            forall|j: int, i: int| 0 <= j < selected@.len() && 0 <= i < sorted@.len() ==> #[trigger] selected@[j].events@.len()
                >= #[trigger] full[i].events@.len(),
            forall|i: int| sorted@.len() <= i < full.len() ==> selected@.contains(#[trigger] full[i]) || exists|j: int|
                0 <= j < selected@.len() && #[trigger] overlaps(selected@[j], full[i]) && selected@[j].events@.len()
                    >= full[i].events@.len(),
        decreases sorted@.len(),
    {
        let ghost before = sorted@;
        let sub_pattern = sorted.pop().unwrap();
        let ghost idx = sorted@.len() as int;
        proof {
            assert(before == sorted@.push(sub_pattern));
            assert(sub_pattern == full[idx]);
            assert(sorted@ =~= full.take(idx));
            assert(input.contains(sub_pattern));
            let w = choose|w: int| 0 <= w < input.len() && input[w] == sub_pattern;
            assert(ids_below(input[w], num_edges as nat));
        }
        if contains_selected_edge(&sub_pattern, &is_edge_selected) {
            proof {
                if sub_pattern.events@.len() == 1 {
                    let id = sub_pattern.events@[0].id as int;
                    assert(is_edge_selected@[id]);
                }
                let k = choose|k: int|
                    0 <= k < sub_pattern.events@.len() && is_edge_selected@[sub_pattern.events@[k].id as int];
                let id = sub_pattern.events@[k].id as int;
                assert(0 <= id < num_edges);
                assert(covers(selected@, id));
                let j = choose|j: int| 0 <= j < selected@.len() && #[trigger] holds_event(selected@[j], id);
                let x = choose|x: int| 0 <= x < selected@[j].events@.len() && selected@[j].events@[x].id == id;
                assert(selected@[j].events@[x].id == full[idx].events@[k].id);
                assert(overlaps(selected@[j], full[idx]));
                assert(selected@[j].events@.len() >= full[idx].events@.len());
                assert forall|i: int| sorted@.len() <= i < full.len() implies selected@.contains(#[trigger] full[i]) || exists|j2: int|
                    0 <= j2 < selected@.len() && #[trigger] overlaps(selected@[j2], full[i]) && selected@[j2].events@.len()
                        >= full[i].events@.len() by {
                    if i == idx {
                        assert(overlaps(selected@[j], full[i]));
                    }
                }
            }
            continue;
        }
        let mut k: usize = 0;
        let ghost old_sel = selected@;
        while k < sub_pattern.events.len()
            invariant
                0 <= k <= sub_pattern.events@.len(),
                ids_below(sub_pattern, num_edges as nat),
                is_edge_selected@.len() == num_edges,
                forall|id: int|
                    0 <= id < num_edges ==> (#[trigger] is_edge_selected@[id] <==> (covers(old_sel, id)
                        || exists|q: int| 0 <= q < k && sub_pattern.events@[q].id == id)),
            decreases sub_pattern.events@.len() - k,
        {
            is_edge_selected.set(sub_pattern.events[k].id, true);
            proof {
                assert forall|id: int| 0 <= id < num_edges implies (#[trigger] is_edge_selected@[id]
                    <== (covers(old_sel, id) || exists|q: int| 0 <= q < k + 1 && sub_pattern.events@[q].id == id)) by {
                    if exists|q: int| 0 <= q < k + 1 && sub_pattern.events@[q].id == id {
                        let q = choose|q: int| 0 <= q < k + 1 && sub_pattern.events@[q].id == id;
                        if q < k {
                        }
                    }
                }
            }
            k += 1;
        }
        selected.push(sub_pattern);
        proof {
            let n = selected@.len() - 1;
            assert(selected@[n] == sub_pattern);
            assert forall|i: int| 0 <= i < selected@.len() implies input.contains(#[trigger] selected@[i]) by {
                if i < n {
                    assert(selected@[i] == old_sel[i]);
                }
            }
            assert forall|id: int| 0 <= id < num_edges implies (#[trigger] is_edge_selected@[id] <==> covers(selected@, id)) by {
                if covers(old_sel, id) {
                    let i = choose|i: int| 0 <= i < old_sel.len() && #[trigger] holds_event(old_sel[i], id);
                    assert(selected@[i] == old_sel[i]);
                    assert(holds_event(selected@[i], id));
                }
                if exists|q: int| 0 <= q < sub_pattern.events@.len() && sub_pattern.events@[q].id == id {
                    assert(holds_event(selected@[n], id));
                }
                if covers(selected@, id) {
                    let i = choose|i: int| 0 <= i < selected@.len() && #[trigger] holds_event(selected@[i], id);
                    if i < n {
                        assert(selected@[i] == old_sel[i]);
                        assert(covers(old_sel, id));
                    }
                }
            }
            assert forall|a: int, b: int, ka: int, kb: int|
                0 <= a < selected@.len() && 0 <= b < selected@.len() && a != b && 0 <= ka
                    < selected@[a].events@.len() && 0 <= kb < selected@[b].events@.len() implies
                    #[trigger] selected@[a].events@[ka].id != #[trigger] selected@[b].events@[kb].id by {
                if a == n {
                    assert(selected@[b] == old_sel[b]);
                    let id = selected@[b].events@[kb].id as int;
                    assert(holds_event(old_sel[b], id));
                    assert(!is_edge_selected@[sub_pattern.events@[ka].id as int] || true);
                    assert(ids_below(old_sel[b], num_edges as nat) || true);
                } else if b == n {
                    assert(selected@[a] == old_sel[a]);
                    let id = selected@[a].events@[ka].id as int;
                    assert(holds_event(old_sel[a], id));
                } else {
                    assert(selected@[a] == old_sel[a]);
                    assert(selected@[b] == old_sel[b]);
                }
            }
            assert forall|j: int, i: int| 0 <= j < selected@.len() && 0 <= i < sorted@.len() implies #[trigger] selected@[j].events@.len()
                >= #[trigger] full[i].events@.len() by {
                if j < n {
                    assert(selected@[j] == old_sel[j]);
                    assert(old_sel[j].events@.len() >= full[i].events@.len());
                } else {
                    assert(selected@[j] == full[idx]);
                }
            }
            assert forall|i: int| sorted@.len() <= i < full.len() implies selected@.contains(#[trigger] full[i]) || exists|j2: int|
                0 <= j2 < selected@.len() && #[trigger] overlaps(selected@[j2], full[i]) && selected@[j2].events@.len()
                    >= full[i].events@.len() by {
                if i == idx {
                    assert(selected@[n] == full[i]);
                } else if old_sel.contains(full[i]) {
                    let j = choose|j: int| 0 <= j < old_sel.len() && old_sel[j] == full[i];
                    assert(selected@[j] == old_sel[j]);
                } else {
                    let j = choose|j: int|
                        0 <= j < old_sel.len() && #[trigger] overlaps(old_sel[j], full[i]) && old_sel[j].events@.len()
                            >= full[i].events@.len();
                    assert(selected@[j] == old_sel[j]);
                    assert(overlaps(selected@[j], full[i]));
                }
            }
            assert forall|i: int|
                sorted@.len() <= i < full.len() && full[i].events@.len() == 1 implies covers(
                    selected@,
                    full[i].events@[0].id as int,
                ) by {
                let id = full[i].events@[0].id as int;
                if i == idx {
                    assert(holds_event(selected@[n], id));
                } else {
                    let j = choose|j: int| 0 <= j < old_sel.len() && #[trigger] holds_event(old_sel[j], id);
                    assert(selected@[j] == old_sel[j]);
                    assert(holds_event(selected@[j], id));
                }
            }
        }
    }
    proof {
        assert forall|i: int| 0 <= i < input.len() implies #[trigger] settled_by(input[i], selected@) by {
            assert(full.contains(input[i]));
            let p = choose|p: int| 0 <= p < full.len() && full[p] == input[i];
            assert(selected@.contains(full[p]) || exists|j: int|
                0 <= j < selected@.len() && #[trigger] overlaps(selected@[j], full[p]) && selected@[j].events@.len()
                    >= full[p].events@.len());
            if selected@.contains(full[p]) {
                let j = choose|j: int| 0 <= j < selected@.len() && selected@[j] == full[p];
                assert(same_events(selected@[j], input[i]));
            } else {
                let j = choose|j: int|
                    0 <= j < selected@.len() && #[trigger] overlaps(selected@[j], full[p]) && selected@[j].events@.len()
                        >= full[p].events@.len();
                assert(overlaps(selected@[j], input[i]));
            }
        }
        assert(picked_largest_first(input, selected@));
        assert forall|id: int| 0 <= id < num_edges && has_singleton(input, id) implies covers(selected@, id) by {
            let i = choose|i: int| 0 <= i < input.len() && input[i].events@.len() == 1 && input[i].events@[0].id == id;
            assert(full.contains(input[i]));
            let j = choose|j: int| 0 <= j < full.len() && full[j] == input[i];
        }
    }
    selected
}

/// The graph node of each event (event `i` is node `i + 1`).
pub open spec fn chain_nodes(evs: Seq<&PatternEvent>) -> Seq<int> {
    evs.map_values(|e: &PatternEvent| e.id + 1)
}

/// `e` is the event of `pattern` with the same id.
pub open spec fn is_pattern_event(pattern: Pattern, e: PatternEvent) -> bool {
    e.id < pattern.events@.len() && e == pattern.events@[e.id as int]
}

/// The events belong to the pattern and each one depends directly on the one before it.
pub open spec fn is_dependency_chain(pattern: Pattern, evs: Seq<&PatternEvent>) -> bool {
    &&& forall|k: int| 0 <= k < evs.len() ==> is_pattern_event(pattern, *#[trigger] evs[k])
    &&& is_walk(pattern.order.arcs(), chain_nodes(evs))
}

/// Every event after the first shares an entity with an earlier one.
pub open spec fn is_connected(evs: Seq<&PatternEvent>) -> bool {
    forall|k: int| 1 <= k < evs.len() ==> #[trigger] shares_earlier(evs, k)
}

/// The `k`-th event shares an entity with an earlier one.
pub open spec fn shares_earlier(evs: Seq<&PatternEvent>, k: int) -> bool {
    exists|j: int| 0 <= j < k && #[trigger] shares_entity(*evs[k], *evs[j])
}

/// A non-empty, connected chain of dependent pattern events.
pub open spec fn valid_sub_pattern(pattern: Pattern, evs: Seq<&PatternEvent>) -> bool {
    &&& evs.len() >= 1
    &&& is_dependency_chain(pattern, evs)
    &&& is_connected(evs)
}

proof fn lemma_connected_push<'a>(old: Seq<&'a PatternEvent>, edge: &'a PatternEvent)
    requires
        is_connected(old),
        old.len() == 0 || exists|j: int| 0 <= j < old.len() && shares_entity(*edge, *old[j]),
    ensures
        is_connected(old.push(edge)),
{
    let cur = old.push(edge);
    assert forall|k: int| 1 <= k < cur.len() implies #[trigger] shares_earlier(cur, k) by {
        if k < old.len() {
            assert(old[k] == cur[k]);
            assert(shares_earlier(old, k));
            let j = choose|j: int| 0 <= j < k && #[trigger] shares_entity(*old[k], *old[j]);
            assert(cur[j] == old[j]);
            assert(shares_entity(*cur[k], *cur[j]));
        } else {
            let j = choose|j: int| 0 <= j < old.len() && shares_entity(*edge, *old[j]);
            assert(cur[j] == old[j]);
            assert(cur[k] == edge);
            assert(shares_entity(*cur[k], *cur[j]));
        }
    }
}

proof fn lemma_walk_no_duplicates(arcs: Seq<(int, int)>, path: Seq<int>)
    requires
        !has_cycle(arcs),
        is_walk(arcs, path),
    ensures
        path.no_duplicates(),
{
    assert forall|i: int, j: int| 0 <= i < path.len() && 0 <= j < path.len() && i != j implies path[i] != path[j] by {
        if path[i] == path[j] {
            let lo = if i < j { i } else { j };
            let hi = if i < j { j } else { i };
            let sub = path.subrange(lo, hi + 1);
            assert forall|k: int| 0 <= k < sub.len() - 1 implies #[trigger] arcs.contains((sub[k], sub[k + 1])) by {
                assert(sub[k] == path[lo + k]);
                assert(sub[k + 1] == path[lo + k + 1]);
                assert(arcs.contains((path[lo + k], path[lo + k + 1])));
            }
            assert(is_walk(arcs, sub));
            assert(sub.len() >= 2 && sub[0] == sub.last());
        }
    }
}

proof fn lemma_distinct_bounded(s: Seq<int>, n: int)
    requires
        s.no_duplicates(),
        n >= 0,
        forall|k: int| 0 <= k < s.len() ==> 1 <= #[trigger] s[k] <= n,
    ensures
        s.len() <= n,
{
    s.unique_seq_to_set();
    vstd::set_lib::lemma_int_range(1, n + 1);
    assert(s.to_set().subset_of(vstd::set_lib::set_int_range(1, n + 1)));
    vstd::set_lib::lemma_len_subset(s.to_set(), vstd::set_lib::set_int_range(1, n + 1));
}

proof fn lemma_successors_are_arcs(arcs: Seq<(int, int)>, n: int)
    ensures
        forall|k: int| 0 <= k < successors(arcs, n).len() ==> arcs.contains((n, #[trigger] successors(arcs, n)[k])),
    decreases arcs.len(),
{
    if arcs.len() > 0 {
        let d = arcs.drop_last();
        lemma_successors_are_arcs(d, n);
        let e = arcs.last();
        let h = if e.0 == n { seq![e.1] } else { Seq::<int>::empty() };
        let r = successors(d, n);
        assert(successors(arcs, n) == h + r);
        assert forall|k: int| 0 <= k < (h + r).len() implies arcs.contains((n, #[trigger] (h + r)[k])) by {
            if k < h.len() {
                assert(arcs[arcs.len() - 1] == (n, e.1));
            } else {
                assert((h + r)[k] == r[k - h.len()]);
                let x = r[k - h.len()];
                assert(d.contains((n, x)));
                let w = choose|w: int| 0 <= w < d.len() && d[w] == (n, x);
                assert(arcs[w] == d[w]);
            }
        }
    }
}

/// `res` holds a sub-pattern made of exactly the events `evs`.
pub open spec fn lists_events(res: Seq<SubPattern>, evs: Seq<&PatternEvent>) -> bool {
    exists|t: int| 0 <= t < res.len() && #[trigger] res[t].events@ == evs
}

proof fn lemma_lists_grow(a: Seq<SubPattern>, b: Seq<SubPattern>, evs: Seq<&PatternEvent>)
    requires
        lists_events(a, evs),
        a.len() <= b.len(),
        forall|t: int| 0 <= t < a.len() ==> b[t] == a[t],
    ensures
        lists_events(b, evs),
{
    let t = choose|t: int| 0 <= t < a.len() && #[trigger] a[t].events@ == evs;
    assert(b[t] == a[t]);
}

/// Every arc from `n` gives one of its successors.
proof fn lemma_arc_is_successor(arcs: Seq<(int, int)>, n: int, x: int)
    requires
        arcs.contains((n, x)),
    ensures
        successors(arcs, n).contains(x),
    decreases arcs.len(),
{
    let d = arcs.drop_last();
    let e = arcs.last();
    let head = if e.0 == n { seq![e.1] } else { Seq::<int>::empty() };
    assert(successors(arcs, n) == head + successors(d, n));
    if e == (n, x) {
        assert((head + successors(d, n))[0] == x);
    } else {
        let w = choose|w: int| 0 <= w < arcs.len() && arcs[w] == (n, x);
        assert(w < arcs.len() - 1);
        assert(d[w] == (n, x));
        lemma_arc_is_successor(d, n, x);
        let k = choose|k: int| 0 <= k < successors(d, n).len() && successors(d, n)[k] == x;
        assert((head + successors(d, n))[head.len() + k] == x);
    }
}

/// A DFS search that enumerates all connected sub-patterns that extend `parents` by `edge` and
/// then follow the dependencies.
fn generate_sub_patterns<'a>(
    pattern: &'a Pattern,
    edge: &'a PatternEvent,
    parents: &mut Vec<&'a PatternEvent>,
    results: &mut Vec<SubPattern<'a>>,
)
    requires
        pattern.well_formed(),
        is_dependency_chain(*pattern, old(parents)@.push(edge)),
        is_connected(old(parents)@),
    ensures
        final(parents)@ == old(parents)@,
        final(results)@.len() >= old(results)@.len(),
        forall|i: int| 0 <= i < old(results)@.len() ==> final(results)@[i] == old(results)@[i],
        forall|i: int|
            old(results)@.len() <= i < final(results)@.len() ==> valid_sub_pattern(
                *pattern,
                #[trigger] final(results)@[i].events@,
            ),
        old(parents)@.len() == 0 ==> final(results)@.len() > old(results)@.len()
            && final(results)@[old(results)@.len() as int].events@ == seq![edge],
        forall|evs: Seq<&'a PatternEvent>|
            #![trigger lists_events(final(results)@, evs)]
            valid_sub_pattern(*pattern, evs) && evs.len() > old(parents)@.len() && evs.take(old(parents)@.len() as int + 1)
                == old(parents)@.push(edge) ==> lists_events(final(results)@, evs),
    decreases pattern.events@.len() - old(parents)@.len(),
{
    if !has_shared_node(edge, parents) {
        proof {
            let op = parents@;
            assert forall|evs: Seq<&'a PatternEvent>|
                valid_sub_pattern(*pattern, evs) && evs.len() > op.len() && evs.take(op.len() as int + 1) == op.push(edge)
                implies #[trigger] lists_events(results@, evs) by {
                let c = op.len() as int;
                assert(c >= 1);
                assert(shares_earlier(evs, c));
                let j = choose|j: int| 0 <= j < c && #[trigger] shares_entity(*evs[c], *evs[j]);
                assert(evs[c] == evs.take(c + 1)[c]);
                assert(evs[j] == evs.take(c + 1)[j]);
                assert(evs[c] == edge);
                assert(evs[j] == op[j]);
                assert(shares_entity(*edge, *op[j]));
            }
        }
        return;
    }
    let ghost old_parents = parents@;
    let ghost arcs = pattern.order.arcs();
    let ghost n = pattern.events@.len() as int;
    parents.push(edge);
    let ghost cur = parents@;
    proof {
        assert(cur == old_parents.push(edge));
        lemma_connected_push(old_parents, edge);
        assert(is_connected(cur));
        assert(is_pattern_event(*pattern, *cur[cur.len() - 1]));
        lemma_walk_no_duplicates(arcs, chain_nodes(cur));
        assert forall|k: int| 0 <= k < chain_nodes(cur).len() implies 1 <= #[trigger] chain_nodes(cur)[k] <= n by {
            assert(is_pattern_event(*pattern, *cur[k]));
        }
        lemma_distinct_bounded(chain_nodes(cur), n);
        assert(cur.len() <= n);
    }
    let copy = parents.clone();
    proof {
        assert(copy@ =~= cur);
    }
    results.push(SubPattern { id: 0, events: copy });
    let ghost first_len = results@.len();
    let next = pattern.order.get_next(edge.id);
    let ghost sp = choose|p: Seq<int>| #[trigger] same_items(p, successors(arcs, edge.id + 1))
        && next@.map_values(|x: usize| x as int) == shift_down(p);
    proof {
        lemma_successors_are_arcs(arcs, edge.id + 1);
        let sc = successors(arcs, edge.id + 1);
        assert forall|k: int| 0 <= k < sp.len() implies arcs.contains((edge.id + 1, #[trigger] sp[k])) by {
            sp.to_multiset_ensures();
            sc.to_multiset_ensures();
            assert(sp.contains(sp[k]));
            assert(sp.to_multiset().count(sp[k]) > 0);
            assert(sc.contains(sp[k]));
            let j = choose|j: int| 0 <= j < sc.len() && sc[j] == sp[k];
        }
    }
    let mut i: usize = 0;
    while i < next.len()
        invariant
            pattern.well_formed(),
            arcs == pattern.order.arcs(),
            n == pattern.events@.len(),
            parents@ == cur,
            cur == old_parents.push(edge),
            old_parents == old(parents)@,
            is_dependency_chain(*pattern, cur),
            is_connected(cur),
            cur.len() <= n,
            0 <= i <= next@.len(),
            next@.map_values(|x: usize| x as int) == shift_down(sp),
            forall|k: int| 0 <= k < sp.len() ==> arcs.contains((edge.id + 1, #[trigger] sp[k])),
            results@.len() >= first_len,
            first_len == old(results)@.len() + 1,
            forall|t: int| 0 <= t < old(results)@.len() ==> results@[t] == old(results)@[t],
            results@[old(results)@.len() as int].events@ == cur,
            forall|t: int|
                old(results)@.len() <= t < results@.len() ==> valid_sub_pattern(
                    *pattern,
                    #[trigger] results@[t].events@,
                ),
            forall|evs: Seq<&'a PatternEvent>|
                #![trigger lists_events(results@, evs)]
                valid_sub_pattern(*pattern, evs) && evs.len() > cur.len() && evs.take(cur.len() as int) == cur
                    && (exists|j: int| 0 <= j < i && evs[cur.len() as int].id == #[trigger] next@[j])
                    ==> lists_events(results@, evs),
        decreases next@.len() - i,
    {
        let eid = next[i];
        proof {
            assert(next@.map_values(|x: usize| x as int).len() == next@.len());
            assert(shift_down(sp).len() == sp.len());
            let x = sp[i as int];
            assert(shift_down(sp)[i as int] == x - 1);
            assert(next@.map_values(|x: usize| x as int)[i as int] == eid as int);
            assert(eid as int == x - 1);
            assert(arcs.contains((edge.id + 1, x)));
            let w = choose|w: int| 0 <= w < arcs.len() && arcs[w] == (edge.id + 1, x);
            assert(arcs[w].1 >= 1 && arcs[w].1 <= n);
        }
        let child = &pattern.events[eid];
        proof {
            let ext = cur.push(child);
            assert(child.id == eid);
            assert forall|k: int| 0 <= k < ext.len() implies is_pattern_event(*pattern, *#[trigger] ext[k]) by {
                if k < cur.len() {
                    assert(ext[k] == cur[k]);
                }
            }
            assert forall|k: int| 0 <= k < chain_nodes(ext).len() - 1 implies #[trigger] arcs.contains((chain_nodes(ext)[k], chain_nodes(ext)[k + 1])) by {
                if k < cur.len() - 1 {
                    assert(chain_nodes(ext)[k] == chain_nodes(cur)[k]);
                    assert(chain_nodes(ext)[k + 1] == chain_nodes(cur)[k + 1]);
                } else {
                    assert(chain_nodes(ext)[k] == edge.id + 1);
                    assert(chain_nodes(ext)[k + 1] == eid + 1);
                }
            }
        }
        let ghost before = results@;
        assert(pattern.events@.len() - parents@.len() < pattern.events@.len() - old(parents)@.len());
        assert(0 <= pattern.events@.len() - parents@.len());
        generate_sub_patterns(pattern, child, parents, results);
        proof {
            assert forall|t: int| 0 <= t < old(results)@.len() implies results@[t] == old(results)@[t] by {
                assert(results@[t] == before[t]);
            }
            assert(results@[old(results)@.len() as int] == before[old(results)@.len() as int]);
            assert forall|t: int| old(results)@.len() <= t < results@.len() implies valid_sub_pattern(
                *pattern,
                #[trigger] results@[t].events@,
            ) by {
                if t < before.len() {
                    assert(results@[t] == before[t]);
                }
            }
            assert forall|evs: Seq<&'a PatternEvent>|
                valid_sub_pattern(*pattern, evs) && evs.len() > cur.len() && evs.take(cur.len() as int) == cur
                    && (exists|j: int| 0 <= j < i + 1 && evs[cur.len() as int].id == #[trigger] next@[j])
                implies #[trigger] lists_events(results@, evs) by {
                let c = cur.len() as int;
                if exists|j: int| 0 <= j < i && evs[c].id == #[trigger] next@[j] {
                    assert(lists_events(before, evs));
                    lemma_lists_grow(before, results@, evs);
                } else {
                    assert(evs[c].id == eid);
                    assert(is_pattern_event(*pattern, *evs[c]));
                    assert(*evs[c] == *child);
                    assert(evs.take(c + 1) =~= cur.push(child));
                }
            }
        }
        i += 1;
    }
    parents.pop();
    proof {
        assert(parents@ =~= old_parents);
        assert forall|evs: Seq<&'a PatternEvent>|
            valid_sub_pattern(*pattern, evs) && evs.len() > old_parents.len() && evs.take(old_parents.len() as int + 1)
                == old_parents.push(edge) implies #[trigger] lists_events(results@, evs) by {
            let c = cur.len() as int;
            assert(evs.take(c) == cur);
            if evs.len() == c {
                assert(evs =~= cur);
                assert(results@[old(results)@.len() as int].events@ == evs);
            } else {
                assert(evs[c - 1] == evs.take(c)[c - 1]);
                assert(evs[c - 1] == edge);
                let nodes = chain_nodes(evs);
                assert(arcs.contains((nodes[c - 1], nodes[c])));
                assert(nodes[c - 1] == edge.id + 1);
                lemma_arc_is_successor(arcs, edge.id + 1, evs[c].id + 1);
                let sc = successors(arcs, edge.id + 1);
                sp.to_multiset_ensures();
                sc.to_multiset_ensures();
                assert(sc.to_multiset().count(evs[c].id + 1) > 0);
                assert(sp.contains(evs[c].id + 1));
                let j = choose|j: int| 0 <= j < sp.len() && sp[j] == evs[c].id + 1;
                assert(next@.map_values(|x: usize| x as int).len() == next@.len());
                assert(shift_down(sp).len() == sp.len());
                assert(shift_down(sp)[j] == evs[c].id);
                assert(next@.map_values(|x: usize| x as int)[j] == next@[j] as int);
                assert(evs[c].id == next@[j]);
            }
        }
    }
}

/// Decompose the behavioral pattern into disjoint sub-patterns, each a connected chain of
/// dependent events. The sub-patterns are numbered by their position.
pub fn decompose<'a>(pattern: &'a Pattern) -> (res: Vec<SubPattern<'a>>)
    requires
        pattern.well_formed(),
    ensures
        forall|i: int| 0 <= i < res@.len() ==> #[trigger] res@[i].id == i,
        forall|i: int| 0 <= i < res@.len() ==> valid_sub_pattern(*pattern, #[trigger] res@[i].events@),
        pairwise_disjoint(res@),
        forall|e: int| 0 <= e < pattern.events@.len() ==> covers(res@, e),
        exists|cands: Seq<SubPattern<'a>>|
            #![trigger picked_largest_first(cands, res@)]
            {
                &&& forall|i: int| 0 <= i < cands.len() ==> valid_sub_pattern(*pattern, #[trigger] cands[i].events@)
                &&& forall|e: int| 0 <= e < pattern.events@.len() ==> has_singleton(cands, e)
                &&& forall|evs: Seq<&'a PatternEvent>| valid_sub_pattern(*pattern, evs) ==> #[trigger] lists_events(cands, evs)
                &&& picked_largest_first(cands, res@)
            },
{
    let mut sub_patterns: Vec<SubPattern<'a>> = Vec::new();
    let mut parents: Vec<&'a PatternEvent> = Vec::new();
    let n = pattern.events.len();
    let mut k: usize = 0;
    while k < n
        invariant
            pattern.well_formed(),
            n == pattern.events@.len(),
            0 <= k <= n,
            parents@.len() == 0,
            forall|i: int| 0 <= i < sub_patterns@.len() ==> valid_sub_pattern(*pattern, #[trigger] sub_patterns@[i].events@),
            forall|e: int| 0 <= e < k ==> has_singleton(sub_patterns@, e),
            forall|evs: Seq<&'a PatternEvent>|
                #![trigger lists_events(sub_patterns@, evs)]
                valid_sub_pattern(*pattern, evs) && evs[0].id < k ==> lists_events(sub_patterns@, evs),
        decreases n - k,
    {
        let edge = &pattern.events[k];
        proof {
            let c = parents@.push(edge);
            assert(c[0] == edge);
            assert(is_pattern_event(*pattern, *edge));
            assert forall|t: int| 0 <= t < c.len() implies is_pattern_event(*pattern, *#[trigger] c[t]) by {}
            assert(is_walk(pattern.order.arcs(), chain_nodes(c)));
        }
        let ghost before = sub_patterns@;
        generate_sub_patterns(pattern, edge, &mut parents, &mut sub_patterns);
        proof {
            let w = before.len() as int;
            assert(sub_patterns@[w].events@ == seq![edge]);
            assert(sub_patterns@[w].events@[0].id == k);
            assert forall|e: int| 0 <= e < k + 1 implies has_singleton(sub_patterns@, e) by {
                if e < k {
                    assert(has_singleton(before, e));
                    let i = choose|i: int| 0 <= i < before.len() && before[i].events@.len() == 1 && before[i].events@[0].id == e;
                    assert(sub_patterns@[i] == before[i]);
                }
            }
            assert forall|i: int| 0 <= i < sub_patterns@.len() implies valid_sub_pattern(*pattern, #[trigger] sub_patterns@[i].events@) by {
                if i < before.len() {
                    assert(sub_patterns@[i] == before[i]);
                }
            }
            assert forall|evs: Seq<&'a PatternEvent>|
                valid_sub_pattern(*pattern, evs) && evs[0].id < k + 1 implies #[trigger] lists_events(sub_patterns@, evs) by {
                if evs[0].id < k {
                    assert(lists_events(before, evs));
                    lemma_lists_grow(before, sub_patterns@, evs);
                } else {
                    assert(is_pattern_event(*pattern, *evs[0]));
                    assert(*evs[0] == *edge);
                    assert(evs.take(1) =~= seq![edge]);
                    assert(Seq::<&'a PatternEvent>::empty().push(edge) =~= seq![edge]);
                }
            }
        }
        k += 1;
    }
    proof {
        assert forall|i: int| 0 <= i < sub_patterns@.len() implies ids_below(#[trigger] sub_patterns@[i], n as nat) by {
            let sp = sub_patterns@[i];
            assert(valid_sub_pattern(*pattern, sp.events@));
            assert forall|t: int| 0 <= t < sp.events@.len() implies #[trigger] sp.events@[t].id < n by {
                assert(is_pattern_event(*pattern, *sp.events@[t]));
            }
        }
    }
    let ghost all = sub_patterns@;
    proof {
        assert forall|evs: Seq<&'a PatternEvent>| valid_sub_pattern(*pattern, evs) implies #[trigger] lists_events(all, evs) by {
            assert(is_pattern_event(*pattern, *evs[0]));
        }
    }
    let mut selected = select_sub_patterns(n, sub_patterns);
    let mut res: Vec<SubPattern<'a>> = Vec::new();
    let ghost sel = selected@;
    proof {
        assert forall|i: int| 0 <= i < sel.len() implies valid_sub_pattern(*pattern, #[trigger] sel[i].events@) by {
            assert(all.contains(sel[i]));
            let j = choose|j: int| 0 <= j < all.len() && all[j] == sel[i];
            assert(valid_sub_pattern(*pattern, all[j].events@));
        }
    }
    while selected.len() > 0
        invariant
            res@.len() + selected@.len() == sel.len(),
            selected@ == sel.skip(res@.len() as int),
            forall|i: int| 0 <= i < res@.len() ==> #[trigger] res@[i].id == i,
            forall|i: int| 0 <= i < res@.len() ==> #[trigger] res@[i].events@ == sel[i].events@,
        decreases selected@.len(),
    {
        let sp = selected.remove(0);
        proof {
            assert(sp == sel[res@.len() as int]);
        }
        let id = res.len();
        let ghost res0 = res@;
        res.push(SubPattern { id, events: sp.events });
        proof {
            assert(selected@ =~= sel.skip(res@.len() as int));
            assert forall|i: int| 0 <= i < res@.len() implies #[trigger] res@[i].events@ == sel[i].events@ by {
                if i < res0.len() {
                    assert(res@[i] == res0[i]);
                }
            }
        }
    }
    proof {
        assert forall|i: int| 0 <= i < res@.len() implies valid_sub_pattern(*pattern, #[trigger] res@[i].events@) by {
            assert(valid_sub_pattern(*pattern, sel[i].events@));
        }
        assert forall|a: int, b: int, ka: int, kb: int|
            0 <= a < res@.len() && 0 <= b < res@.len() && a != b && 0 <= ka < res@[a].events@.len() && 0
                <= kb < res@[b].events@.len() implies #[trigger] res@[a].events@[ka].id
                != #[trigger] res@[b].events@[kb].id by {
            assert(res@[a].events@ == sel[a].events@);
            assert(res@[b].events@ == sel[b].events@);
            assert(sel[a].events@[ka].id != sel[b].events@[kb].id);
        }
        assert forall|e: int| 0 <= e < n implies covers(res@, e) by {
            assert(has_singleton(all, e));
            assert(covers(sel, e));
            let i = choose|i: int| 0 <= i < sel.len() && #[trigger] holds_event(sel[i], e);
            assert(res@[i].events@ == sel[i].events@);
            assert(holds_event(res@[i], e));
        }
        assert forall|i: int| 0 <= i < all.len() implies #[trigger] settled_by(all[i], res@) by {
            assert(settled_by(all[i], sel));
            let j = choose|j: int|
                0 <= j < sel.len() && (same_events(sel[j], all[i]) || (overlaps(sel[j], all[i]) && sel[j].events@.len()
                    >= all[i].events@.len()));
            assert(res@[j].events@ == sel[j].events@);
            if !same_events(sel[j], all[i]) {
                let (x, y) = choose|x: int, y: int|
                    0 <= x < sel[j].events@.len() && 0 <= y < all[i].events@.len() && #[trigger] sel[j].events@[x].id
                        == #[trigger] all[i].events@[y].id;
                assert(res@[j].events@[x].id == all[i].events@[y].id);
                assert(overlaps(res@[j], all[i]));
            } else {
                assert(same_events(res@[j], all[i]));
            }
        }
        assert(picked_largest_first(all, res@));
    }
    res
}

} // verus!
