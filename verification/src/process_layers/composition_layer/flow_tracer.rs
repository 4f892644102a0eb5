use vstd::prelude::*;
use std::collections::{HashMap, HashSet};
use std::hash::BuildHasher;
use petgraph::graphmap::GraphMap;
use petgraph::{Directed, Direction};
use vstd::std_specs::iter::IteratorSpec;

verus! {

broadcast use vstd::std_specs::hash::group_hash_axioms;

/// The node `id` keeps its place in `m` with the time `t`, if it is there.
pub open spec fn refreshed(m: Map<u64, u64>, id: u64, t: u64) -> Map<u64, u64> {
    if m.contains_key(id) {
        m.insert(id, t)
    } else {
        m
    }
}

/// Taking the node `id` at time `t` changes `m`: the time is within the bound, and the node is
/// new or older in `m`.
pub open spec fn improves(m: Map<u64, u64>, id: u64, t: u64, bound: u64) -> bool {
    t >= bound && (!m.contains_key(id) || m[id] < t)
}

/// `m` after taking every node of `other` whose time is within the bound, the newer time
/// winning.
pub open spec fn unioned(m: Map<u64, u64>, other: Map<u64, u64>, bound: u64) -> Map<u64, u64> {
    Map::new(
        |id: u64| m.contains_key(id) || (other.contains_key(id) && other[id] >= bound),
        |id: u64|
            if other.contains_key(id) && improves(m, id, other[id], bound) {
                other[id]
            } else {
                m[id]
            },
    )
}

/// The nodes that taking `other` into `m` changes.
pub open spec fn improved_ids(m: Map<u64, u64>, other: Map<u64, u64>, bound: u64) -> Set<u64> {
    Set::new(|id: u64| other.contains_key(id) && improves(m, id, other[id], bound))
}

/// `l` is the larger of `latest` and the newest time that taking `other` into `m` brings in.
pub open spec fn latest_after(l: u64, latest: u64, m: Map<u64, u64>, other: Map<u64, u64>, bound: u64) -> bool {
    &&& l >= latest
    &&& forall|id: u64| #[trigger] improved_ids(m, other, bound).contains(id) ==> l >= other[id]
    &&& (l == latest || exists|id: u64| #[trigger] improved_ids(m, other, bound).contains(id) && other[id] == l)
}

/// The nodes newer in `m` than in `other`, or only in `m`.
pub open spec fn newer_ids(m: Map<u64, u64>, other: Map<u64, u64>) -> Set<u64> {
    Set::new(|id: u64| m.contains_key(id) && !(other.contains_key(id) && other[id] >= m[id]))
}

/// The nodes of `m` whose time is within the bound.
pub open spec fn kept_within(m: Map<u64, u64>, bound: u64) -> Map<u64, u64> {
    m.restrict(Set::new(|id: u64| m.contains_key(id) && m[id] >= bound))
}

/// `t` is the oldest time in `m`, or `u64::MAX` when `m` is empty.
pub open spec fn least_time(t: u64, m: Map<u64, u64>) -> bool {
    &&& forall|id: u64| #[trigger] m.contains_key(id) ==> t <= m[id]
    &&& (t == u64::MAX || exists|id: u64| #[trigger] m.contains_key(id) && m[id] == t)
}

/// `b` is the set `a` without the nodes older than `bound`. The hint of `a` decides: when it
/// is not older than the bound nothing goes; when the latest time is older, everything goes.
pub open spec fn trimmed(a: (Map<u64, u64>, u64, u64), b: (Map<u64, u64>, u64, u64), bound: u64) -> bool {
    if a.1 >= bound {
        b == a
    } else if a.2 < bound {
        b == (Map::<u64, u64>::empty(), a.1, a.2)
    } else {
        &&& b.0 == kept_within(a.0, bound)
        &&& least_time(b.1, b.0)
        &&& b.2 == a.2
    }
}

/// The update times that trimming `a` to the bound keeps.
pub open spec fn trimmed_times(a: (Map<u64, u64>, u64, u64), bound: u64) -> Map<u64, u64> {
    if a.1 >= bound {
        a.0
    } else if a.2 < bound {
        Map::empty()
    } else {
        kept_within(a.0, bound)
    }
}

/// Whether a set takes part in a merge under the bound: its latest time is not older.
pub open spec fn joins_merge(v: (Map<u64, u64>, u64, u64), bound: u64) -> bool {
    v.2 >= bound
}

/// The update times after merging the sets of `s` in turn, the newer time winning and the
/// times older than the bound left out.
pub open spec fn merged_times(s: Seq<(Map<u64, u64>, u64, u64)>, bound: u64) -> Map<u64, u64>
    decreases s.len(),
{
    if s.len() == 0 {
        Map::empty()
    } else {
        let m = merged_times(s.drop_last(), bound);
        if joins_merge(s.last(), bound) {
            unioned(m, s.last().0, bound)
        } else {
            m
        }
    }
}

/// Every node of a merge is in one of the merged sets.
proof fn lemma_merged_from(s: Seq<(Map<u64, u64>, u64, u64)>, bound: u64, x: u64)
    requires
        merged_times(s, bound).contains_key(x),
    ensures
        exists|t: int| 0 <= t < s.len() && #[trigger] s[t].0.contains_key(x),
    decreases s.len(),
{
    let prev = s.drop_last();
    if merged_times(prev, bound).contains_key(x) {
        lemma_merged_from(prev, bound, x);
        let t = choose|t: int| 0 <= t < prev.len() && #[trigger] prev[t].0.contains_key(x);
        assert(s[t] == prev[t]);
    } else {
        assert(s[s.len() - 1].0.contains_key(x));
    }
}

/// The latest time among the sets of `s` that take part in a merge, or 0.
pub open spec fn merged_latest(s: Seq<(Map<u64, u64>, u64, u64)>, bound: u64) -> u64
    decreases s.len(),
{
    if s.len() == 0 {
        0
    } else {
        let l = merged_latest(s.drop_last(), bound);
        if joins_merge(s.last(), bound) && l < s.last().2 {
            s.last().2
        } else {
            l
        }
    }
}

/// `h` is the oldest time within the bound among the sets of `s` that take part in a merge,
/// or `u64::MAX` when there is none.
pub open spec fn merged_oldest(h: u64, s: Seq<(Map<u64, u64>, u64, u64)>, bound: u64) -> bool {
    &&& forall|i: int, id: u64|
        0 <= i < s.len() && joins_merge(s[i], bound) && #[trigger] s[i].0.contains_key(id) && s[i].0[id] >= bound
            ==> h <= s[i].0[id]
    &&& (h == u64::MAX || exists|i: int, id: u64|
        0 <= i < s.len() && joins_merge(s[i], bound) && #[trigger] s[i].0.contains_key(id) && s[i].0[id] >= bound
            && s[i].0[id] == h)
}

/// The keys of a map, each once.
pub(crate) fn keys_of<V>(m: &HashMap<u64, V>) -> (res: Vec<u64>)
    ensures
        res@.no_duplicates(),
        res@.to_set() == m@.dom(),
{
    let mut res: Vec<u64> = Vec::new();
    let ghost keys = IteratorSpec::remaining(&m.keys());
    for k in it: m.keys()
        invariant
            it.seq() == keys,
            keys.unref().to_set() == m@.dom(),
            keys.no_duplicates(),
            res@ == keys.unref().take(it.index() as int),
    {
        let ghost i = it.index();
        res.push(*k);
        proof {
            assert(keys.unref().take(i + 1) =~= keys.unref().take(i as int).push(*keys[i as int]));
        }
    }
    proof {
        assert(keys.unref().take(keys.len() as int) =~= keys.unref());
        assert forall|a: int, b: int| 0 <= a < b < res@.len() implies res@[a] != res@[b] by {
            assert(res@[a] == *keys[a] && res@[b] == *keys[b]);
        }
    }
    res
}

/// A set of nodes with the time each was last updated. It answers which nodes a union with
/// another set updates.
#[derive(Debug)]
pub struct ReachSet {
    /// The update time of every node in the set.
    pub node_update_time: HashMap<u64, u64>,
    /// A lower bound of the oldest update time, as the updates kept it.
    pub oldest_time_hint: u64,
    /// The latest update time, as the updates kept it.
    pub latest_time: u64,
}

impl View for ReachSet {
    /// The update times, the oldest-time hint and the latest time.
    type V = (Map<u64, u64>, u64, u64);

    open spec fn view(&self) -> (Map<u64, u64>, u64, u64) {
        (self.node_update_time@, self.oldest_time_hint, self.latest_time)
    }
}

impl Clone for ReachSet {
    /// A set with the same nodes, times and bounds.
    fn clone(&self) -> (res: Self)
        ensures
            res@ == self@,
    {
        ReachSet {
            node_update_time: self.node_update_time.clone(),
            oldest_time_hint: self.oldest_time_hint,
            latest_time: self.latest_time,
        }
    }
}

impl ReachSet {
    /// The update times of the nodes.
    pub open spec fn times(&self) -> Map<u64, u64> {
        self.node_update_time@
    }

    /// A set at `time` holding `id` when it matches, and nothing otherwise.
    pub fn new(id: u64, time: u64, is_match: bool) -> (res: Self)
        ensures
            res.times() == (if is_match {
                Map::<u64, u64>::empty().insert(id, time)
            } else {
                Map::<u64, u64>::empty()
            }),
            res.oldest_time_hint == time,
            res.latest_time == time,
    {
        let mut node_update_time: HashMap<u64, u64> = HashMap::new();
        if is_match {
            node_update_time.insert(id, time);
        }
        ReachSet { node_update_time, oldest_time_hint: time, latest_time: time }
    }

    /// The oldest time within the bound, or `u64::MAX` when there is none.
    fn least_within(&self, time_bound: u64) -> (res: u64)
        ensures
            least_time(res, kept_within(self.times(), time_bound)),
    {
        let ids = keys_of(&self.node_update_time);
        let mut least: u64 = u64::MAX;
        let mut k: usize = 0;
        while k < ids.len()
            invariant
                ids@.to_set() == self.times().dom(),
                k <= ids@.len(),
                forall|j: int| 0 <= j < k && #[trigger] self.times()[ids@[j]] >= time_bound ==> least <= self.times()[ids@[j]],
                least == u64::MAX || exists|j: int| 0 <= j < k && #[trigger] self.times()[ids@[j]] >= time_bound && self.times()[ids@[j]] == least,
            decreases ids@.len() - k,
        {
            let id = ids[k];
            proof {
                assert(ids@.to_set().contains(id));
            }
            let t = *self.node_update_time.get(&id).unwrap();
            if t >= time_bound && t < least {
                least = t;
            }
            k += 1;
        }
        proof {
            let kw = kept_within(self.times(), time_bound);
            assert forall|id: u64| #[trigger] kw.contains_key(id) implies least <= kw[id] by {
                assert(ids@.to_set().contains(id));
                let j = choose|j: int| 0 <= j < ids@.len() && ids@[j] == id;
                assert(self.times()[ids@[j]] >= time_bound);
            }
            if least != u64::MAX {
                let j = choose|j: int| 0 <= j < k && #[trigger] self.times()[ids@[j]] >= time_bound && self.times()[ids@[j]] == least;
                assert(ids@.to_set().contains(ids@[j]));
                assert(kw.contains_key(ids@[j]) && kw[ids@[j]] == least);
            }
        }
        least
    }

    /// Merges the sets in turn into one, the newer time winning; a set whose latest time is
    /// older than `time_bound`, and every time older than it, is left out.
    pub fn merge(sets: &[ReachSet], time_bound: u64) -> (res: Self)
        ensures
            res.times() == merged_times(sets@.map_values(|r: ReachSet| r@), time_bound),
            res.latest_time == merged_latest(sets@.map_values(|r: ReachSet| r@), time_bound),
            merged_oldest(res.oldest_time_hint, sets@.map_values(|r: ReachSet| r@), time_bound),
    {
        let ghost vs = sets@.map_values(|r: ReachSet| r@);
        let mut acc = ReachSet { node_update_time: HashMap::new(), oldest_time_hint: u64::MAX, latest_time: 0 };
        let mut oldest_time_hint: u64 = u64::MAX;
        let mut latest_time: u64 = 0;
        let mut i: usize = 0;
        while i < sets.len()
            invariant
                vs == sets@.map_values(|r: ReachSet| r@),
                i <= sets@.len(),
                acc.times() == merged_times(vs.take(i as int), time_bound),
                latest_time == merged_latest(vs.take(i as int), time_bound),
                merged_oldest(oldest_time_hint, vs.take(i as int), time_bound),
            decreases sets@.len() - i,
        {
            let set = &sets[i];
            let ghost before = vs.take(i as int);
            let ghost after = vs.take(i + 1);
            proof {
                assert(after.drop_last() =~= before);
                assert(after.last() == set@);
                assert forall|j: int| 0 <= j < i implies #[trigger] after[j] == before[j] by {}
            }
            if set.latest_time >= time_bound {
                if latest_time < set.latest_time {
                    latest_time = set.latest_time;
                }
                let _ = acc.unioned_by(set, time_bound);
                let least = set.least_within(time_bound);
                let ghost h0 = oldest_time_hint;
                if least < oldest_time_hint {
                    oldest_time_hint = least;
                }
                proof {
                    let kw = kept_within(set.times(), time_bound);
                    assert forall|j: int, id: u64|
                        0 <= j < after.len() && joins_merge(after[j], time_bound) && #[trigger] after[j].0.contains_key(id) && after[j].0[id] >= time_bound
                        implies oldest_time_hint <= after[j].0[id] by {
                        if j == i {
                            assert(kw.contains_key(id));
                        } else {
                            assert(before[j] == after[j]);
                        }
                    }
                    if oldest_time_hint != u64::MAX {
                        if oldest_time_hint == least {
                            let id = choose|id: u64| #[trigger] kw.contains_key(id) && kw[id] == least;
                            assert(after[i as int].0.contains_key(id) && after[i as int].0[id] >= time_bound);
                        } else {
                            let (j, id) = choose|j: int, id: u64| 0 <= j < before.len() && joins_merge(before[j], time_bound) && #[trigger] before[j].0.contains_key(id) && before[j].0[id] >= time_bound && before[j].0[id] == h0;
                            assert(after[j] == before[j]);
                            assert(after[j].0.contains_key(id));
                        }
                    }
                }
            } else {
                proof {
                    assert forall|j: int, id: u64|
                        0 <= j < after.len() && joins_merge(after[j], time_bound) && #[trigger] after[j].0.contains_key(id) && after[j].0[id] >= time_bound
                        implies oldest_time_hint <= after[j].0[id] by {
                        assert(j != i);
                        assert(before[j] == after[j]);
                    }
                    if oldest_time_hint != u64::MAX {
                        let (j, id) = choose|j: int, id: u64| 0 <= j < before.len() && joins_merge(before[j], time_bound) && #[trigger] before[j].0.contains_key(id) && before[j].0[id] >= time_bound && before[j].0[id] == oldest_time_hint;
                        assert(after[j] == before[j]);
                        assert(after[j].0.contains_key(id));
                    }
                }
            }
            i += 1;
        }
        proof {
            assert(vs.take(sets@.len() as int) =~= vs);
        }
        ReachSet { node_update_time: acc.node_update_time, oldest_time_hint, latest_time }
    }

    /// Sets the time of `id` to `time` if it is in the set; the set's latest time becomes
    /// `time` then.
    pub fn refresh_node(&mut self, id: u64, time: u64)
        ensures
            final(self).times() == refreshed(old(self).times(), id, time),
            final(self).oldest_time_hint == old(self).oldest_time_hint,
            final(self).latest_time == (if old(self).times().contains_key(id) {
                time
            } else {
                old(self).latest_time
            }),
    {
        if self.node_update_time.contains_key(&id) {
            self.node_update_time.insert(id, time);
            self.latest_time = time;
        }
    }

    /// Takes the node `id` at `update_time` when that time is within the bound and the node
    /// is new or older here. Returns whether the set changed.
    pub fn update_or_insert(&mut self, id: u64, update_time: u64, time_bound: u64) -> (res: bool)
        ensures
            res == improves(old(self).times(), id, update_time, time_bound),
            final(self).times() == (if res {
                old(self).times().insert(id, update_time)
            } else {
                old(self).times()
            }),
            final(self).oldest_time_hint == old(self).oldest_time_hint,
            final(self).latest_time == (if res && old(self).latest_time < update_time {
                update_time
            } else {
                old(self).latest_time
            }),
    {
        if update_time < time_bound {
            return false;
        }
        match self.node_update_time.get(&id) {
            Some(our_update_time) => {
                if *our_update_time < update_time {
                    self.node_update_time.insert(id, update_time);
                    if self.latest_time < update_time {
                        self.latest_time = update_time;
                    }
                    return true;
                }
            },
            None => {
                self.node_update_time.insert(id, update_time);
                if self.latest_time < update_time {
                    self.latest_time = update_time;
                }
                return true;
            },
        }
        false
    }

    /// Takes every node of `other` within the bound, the newer time winning. Returns the nodes
    /// this changed, each once.
    pub fn unioned_by(&mut self, other: &Self, time_bound: u64) -> (res: Vec<u64>)
        ensures
            final(self).times() == unioned(old(self).times(), other.times(), time_bound),
            res@.no_duplicates(),
            res@.to_set() == improved_ids(old(self).times(), other.times(), time_bound),
            final(self).oldest_time_hint == old(self).oldest_time_hint,
            latest_after(final(self).latest_time, old(self).latest_time, old(self).times(), other.times(), time_bound),
    {
        let ghost m0 = self.times();
        let ghost o = other.times();
        let ids = keys_of(&other.node_update_time);
        let mut updated_nodes: Vec<u64> = Vec::new();
        let mut k: usize = 0;
        while k < ids.len()
            invariant
                m0 == old(self).times(),
                o == other.times(),
                ids@.no_duplicates(),
                ids@.to_set() == o.dom(),
                k <= ids@.len(),
                self.times() == unioned(m0, o.restrict(ids@.take(k as int).to_set()), time_bound),
                updated_nodes@.no_duplicates(),
                updated_nodes@.to_set() == improved_ids(m0, o.restrict(ids@.take(k as int).to_set()), time_bound),
                self.oldest_time_hint == old(self).oldest_time_hint,
                latest_after(self.latest_time, old(self).latest_time, m0, o.restrict(ids@.take(k as int).to_set()), time_bound),
            decreases ids@.len() - k,
        {
            let id = ids[k];
            proof {
                assert(ids@.to_set().contains(id));
            }
            let time = *other.node_update_time.get(&id).unwrap();
            let ghost before = self.times();
            let ghost done = ids@.take(k as int).to_set();
            let ghost done2 = ids@.take(k + 1).to_set();
            proof {
                assert(ids@.take(k + 1) =~= ids@.take(k as int).push(id));
                ids@.take(k as int).lemma_push_to_set_commute(id);
                assert(done2 =~= done.insert(id));
                assert(!done.contains(id)) by {
                    if done.contains(id) {
                        let j = choose|j: int| 0 <= j < k && ids@.take(k as int)[j] == id;
                        assert(ids@[j] == ids@[k as int]);
                    }
                }
            }
            let ghost before_updated = updated_nodes@;
            let ghost l0 = self.latest_time;
            if self.update_or_insert(id, time, time_bound) {
                updated_nodes.push(id);
            }
            proof {
                let od = o.restrict(done);
                let od2 = o.restrict(done2);
                assert(improves(before, id, time, time_bound) == improves(m0, id, time, time_bound));
                assert forall|x: u64| #[trigger] improved_ids(m0, od2, time_bound).contains(x) <==> (improved_ids(m0, od, time_bound).contains(x) || (x == id && improves(m0, id, time, time_bound))) by {}
                assert forall|x: u64| improved_ids(m0, od2, time_bound).contains(x) implies #[trigger] od2[x] == o[x] by {}
                assert forall|x: u64| improved_ids(m0, od, time_bound).contains(x) implies #[trigger] od[x] == o[x] by {}
                let ol = old(self).latest_time;
                if self.latest_time != ol {
                    if self.latest_time == l0 {
                        let w = choose|w: u64| #[trigger] improved_ids(m0, od, time_bound).contains(w) && od[w] == l0;
                        assert(improved_ids(m0, od2, time_bound).contains(w) && od2[w] == self.latest_time);
                    } else {
                        assert(improved_ids(m0, od2, time_bound).contains(id) && od2[id] == self.latest_time);
                    }
                }
                assert(latest_after(self.latest_time, ol, m0, od2, time_bound));
                assert(self.times() =~= unioned(m0, od2, time_bound)) by {
                    assert forall|x: u64| #[trigger] self.times().contains_key(x) == unioned(m0, od2, time_bound).contains_key(x) by {}
                    assert forall|x: u64| self.times().contains_key(x) implies #[trigger] self.times()[x] == unioned(m0, od2, time_bound)[x] by {
                        if x != id {
                            assert(self.times()[x] == before[x]);
                        }
                    }
                }
                assert(updated_nodes@.to_set() =~= improved_ids(m0, od2, time_bound)) by {
                    assert forall|x: u64| #[trigger] updated_nodes@.to_set().contains(x) == improved_ids(m0, od2, time_bound).contains(x) by {
                        if x != id {
                            if updated_nodes@.to_set().contains(x) {
                                let j = choose|j: int| 0 <= j < updated_nodes@.len() && updated_nodes@[j] == x;
                                assert(before_updated[j] == x);
                                assert(before_updated.to_set().contains(x));
                            }
                            if before_updated.to_set().contains(x) {
                                let j = choose|j: int| 0 <= j < before_updated.len() && before_updated[j] == x;
                                assert(updated_nodes@[j] == x);
                            }
                        } else {
                            if updated_nodes@.len() > before_updated.len() {
                                assert(updated_nodes@[before_updated.len() as int] == id);
                            } else {
                                assert(updated_nodes@ == before_updated);
                                if before_updated.to_set().contains(id) {
                                    let j = choose|j: int| 0 <= j < before_updated.len() && before_updated[j] == id;
                                    assert(improved_ids(m0, od, time_bound).contains(id));
                                }
                            }
                        }
                    }
                }
                if updated_nodes@.len() > before_updated.len() {
                    assert(!before_updated.to_set().contains(id)) by {
                        if before_updated.to_set().contains(id) {
                            assert(improved_ids(m0, od, time_bound).contains(id));
                        }
                    }
                    assert forall|a: int, b: int| 0 <= a < b < updated_nodes@.len() implies updated_nodes@[a] != updated_nodes@[b] by {
                        if b == before_updated.len() {
                            assert(before_updated.to_set().contains(updated_nodes@[a]));
                        }
                    }
                }
            }
            k += 1;
        }
        proof {
            assert(ids@.take(ids@.len() as int) =~= ids@);
            assert(o.restrict(ids@.to_set()) =~= o);
        }
        updated_nodes
    }

    /// The nodes only in this set, or newer here than in `other`, each once.
    pub fn difference(&self, other: &Self) -> (res: Vec<u64>)
        ensures
            res@.no_duplicates(),
            res@.to_set() == newer_ids(self.times(), other.times()),
    {
        let ids = keys_of(&self.node_update_time);
        let mut diff: Vec<u64> = Vec::new();
        let mut k: usize = 0;
        while k < ids.len()
            invariant
                ids@.no_duplicates(),
                ids@.to_set() == self.times().dom(),
                k <= ids@.len(),
                diff@.no_duplicates(),
                forall|x: u64| #[trigger] diff@.contains(x) <==> (ids@.take(k as int).contains(x) && newer_ids(self.times(), other.times()).contains(x)),
            decreases ids@.len() - k,
        {
            let id = ids[k];
            proof {
                assert(ids@.to_set().contains(id));
                assert(ids@.take(k + 1) =~= ids@.take(k as int).push(id));
                assert(!ids@.take(k as int).contains(id)) by {
                    if ids@.take(k as int).contains(id) {
                        let j = choose|j: int| 0 <= j < k && ids@.take(k as int)[j] == id;
                        assert(ids@[j] == ids@[k as int]);
                    }
                }
            }
            let time = *self.node_update_time.get(&id).unwrap();
            let skip = match other.node_update_time.get(&id) {
                Some(other_time) => *other_time >= time,
                None => false,
            };
            let ghost before = diff@;
            if !skip {
                diff.push(id);
                proof {
                    assert forall|a: int, b: int| 0 <= a < b < diff@.len() implies diff@[a] != diff@[b] by {
                        if b == before.len() {
                            assert(before.contains(diff@[a]));
                        }
                    }
                }
            }
            proof {
                assert forall|x: u64| #[trigger] diff@.contains(x) <==> (ids@.take(k + 1).contains(x) && newer_ids(self.times(), other.times()).contains(x)) by {
                    if diff@.contains(x) && x != id {
                        let j = choose|j: int| 0 <= j < diff@.len() && diff@[j] == x;
                        assert(before[j] == x);
                    }
                    if before.contains(x) {
                        let j = choose|j: int| 0 <= j < before.len() && before[j] == x;
                        assert(diff@[j] == x);
                    }
                    if x == id && !skip {
                        assert(diff@[before.len() as int] == x);
                    }
                    if ids@.take(k + 1).contains(x) && x != id {
                        let j = choose|j: int| 0 <= j < k + 1 && #[trigger] ids@.take(k + 1)[j] == x;
                        assert(ids@.take(k as int)[j] == x);
                    }
                    if ids@.take(k as int).contains(x) {
                        let j = choose|j: int| 0 <= j < k && #[trigger] ids@.take(k as int)[j] == x;
                        assert(ids@.take(k + 1)[j] == x);
                    }
                    if x == id {
                        assert(ids@.take(k + 1)[k as int] == x);
                    }
                }
            }
            k += 1;
        }
        proof {
            assert(ids@.take(ids@.len() as int) =~= ids@);
            assert forall|x: u64| #[trigger] diff@.to_set().contains(x) == newer_ids(self.times(), other.times()).contains(x) by {
                if newer_ids(self.times(), other.times()).contains(x) {
                    assert(ids@.to_set().contains(x));
                }
            }
            assert(diff@.to_set() =~= newer_ids(self.times(), other.times()));
        }
        diff
    }

    /// The update time of `src`, when it is in the set.
    pub fn get_update_time_of(&self, src: u64) -> (res: Option<u64>)
        ensures
            res == (if self.times().contains_key(src) {
                Some(self.times()[src])
            } else {
                None::<u64>
            }),
    {
        match self.node_update_time.get(&src) {
            Some(t) => Some(*t),
            None => None,
        }
    }

    /// The nodes of the set, each once.
    pub fn iter(&self) -> (res: Vec<u64>)
        ensures
            res@.no_duplicates(),
            res@.to_set() == self.times().dom(),
    {
        keys_of(&self.node_update_time)
    }

    /// Whether the set holds no node.
    pub fn is_empty(&self) -> (res: bool)
        ensures
            res == self.times().is_empty(),
    {
        let empty = self.node_update_time.is_empty();
        proof {
            if !empty {
                assert(self.times().dom().len() > 0);
                if self.times().is_empty() {
                    assert(self.times().dom() =~= Set::<u64>::empty());
                }
            } else {
                assert(self.times().dom().len() == 0);
                assert(self.times().dom() =~= Set::<u64>::empty());
            }
        }
        empty
    }

    /// Removes the nodes older than `time_bound`: none when the oldest time may not be older,
    /// all when the latest time is.
    pub fn del_outdated(&mut self, time_bound: u64)
        ensures
            trimmed(old(self)@, final(self)@, time_bound),
    {
        if self.oldest_time_hint >= time_bound {
            return;
        } else if self.latest_time < time_bound {
            self.node_update_time.clear();
            assert(self.times() =~= Map::<u64, u64>::empty());
            return;
        }
        let ghost m0 = self.times();
        let ids = keys_of(&self.node_update_time);
        let mut kept: HashMap<u64, u64> = HashMap::new();
        let mut oldest_time: u64 = u64::MAX;
        let mut k: usize = 0;
        while k < ids.len()
            invariant
                m0 == self.times(),
                ids@.no_duplicates(),
                ids@.to_set() == m0.dom(),
                k <= ids@.len(),
                kept@ == kept_within(m0.restrict(ids@.take(k as int).to_set()), time_bound),
                least_time(oldest_time, kept@),
            decreases ids@.len() - k,
        {
            let id = ids[k];
            proof {
                assert(ids@.to_set().contains(id));
                assert(ids@.take(k + 1) =~= ids@.take(k as int).push(id));
                ids@.take(k as int).lemma_push_to_set_commute(id);
                assert(ids@.take(k + 1).to_set() =~= ids@.take(k as int).to_set().insert(id));
            }
            let t = *self.node_update_time.get(&id).unwrap();
            let ghost before = kept@;
            if t >= time_bound {
                kept.insert(id, t);
                if t < oldest_time {
                    oldest_time = t;
                }
            }
            proof {
                assert(kept@ =~= kept_within(m0.restrict(ids@.take(k + 1).to_set()), time_bound));
                if oldest_time != u64::MAX && t >= time_bound && oldest_time == t {
                    assert(kept@.contains_key(id) && kept@[id] == oldest_time);
                } else if oldest_time != u64::MAX {
                    let w = choose|w: u64| #[trigger] before.contains_key(w) && before[w] == oldest_time;
                    assert(kept@.contains_key(w) && kept@[w] == oldest_time);
                }
            }
            k += 1;
        }
        proof {
            assert(ids@.take(ids@.len() as int) =~= ids@);
            assert(m0.restrict(ids@.to_set()) =~= m0);
        }
        self.node_update_time = kept;
        self.oldest_time_hint = oldest_time;
    }
}


/// A set at `time` that holds `id` when it matches.
pub open spec fn fresh_set(id: u64, time: u64, is_match: bool) -> (Map<u64, u64>, u64, u64) {
    (if is_match { Map::<u64, u64>::empty().insert(id, time) } else { Map::<u64, u64>::empty() }, time, time)
}

/// The set `v` with `id` moved to `t` when it is there; its latest time becomes `t` then.
pub open spec fn refreshed_set(v: (Map<u64, u64>, u64, u64), id: u64, t: u64) -> (Map<u64, u64>, u64, u64) {
    if v.0.contains_key(id) {
        (v.0.insert(id, t), v.1, t)
    } else {
        v
    }
}

/// The set `v` after taking `id` at `t` under the bound.
pub open spec fn inserted_set(v: (Map<u64, u64>, u64, u64), id: u64, t: u64, bound: u64) -> (Map<u64, u64>, u64, u64) {
    if improves(v.0, id, t, bound) {
        (v.0.insert(id, t), v.1, if v.2 < t { t } else { v.2 })
    } else {
        v
    }
}

/// The start of the window of `window` that ends at `time`, or 0.
pub open spec fn window_start(time: u64, window: u64) -> u64 {
    if time >= window {
        (time - window) as u64
    } else {
        0
    }
}

/// `o` is a copy of the reach set of one of the nodes `scc` in `rs`.
pub open spec fn copied_from(o: ReachSet, scc: Seq<u64>, rs: Map<u64, ReachSet>) -> bool {
    exists|c: int| 0 <= c < scc.len() && rs.contains_key(#[trigger] scc[c]) && o@ == rs[scc[c]]@
}

/// Before a batch, `x` was in the reach set of `w`, or `x` is `w` and `is_match` says that `w`
/// matches.
pub open spec fn sourced_at<F: Fn(u64) -> bool>(old: Map<u64, (Map<u64, u64>, u64, u64)>, is_match: F, x: u64, w: u64) -> bool {
    (old.contains_key(w) && old[w].0.contains_key(x)) || (x == w && is_match.ensures((w,), true))
}

/// The reach sets `new`, with `res`, are what adding an arc from `src` to `dst` at `time`
/// makes of `old`, where `src_match` and `dst_match` say whether the two nodes match.
pub open spec fn arc_added(
    old: Map<u64, (Map<u64, u64>, u64, u64)>,
    new: Map<u64, (Map<u64, u64>, u64, u64)>,
    res: Seq<u64>,
    src: u64,
    dst: u64,
    time: u64,
    window: u64,
    src_match: bool,
    dst_match: bool,
) -> bool {
    let bound = window_start(time, window);
    let d0 = if old.contains_key(dst) { old[dst] } else { fresh_set(dst, time, dst_match) };
    let d1 = refreshed_set(d0, dst, time);
    if old.contains_key(src) {
        let s1 = refreshed_set(old[src], src, time);
        &&& new.dom() == old.dom().insert(dst)
        &&& new[src] == s1
        &&& new[dst].0 == unioned(d1.0, s1.0, bound)
        &&& new[dst].1 == d1.1
        &&& latest_after(new[dst].2, d1.2, d1.0, s1.0, bound)
        &&& forall|k: u64| #[trigger] old.contains_key(k) && k != src && k != dst ==> new[k] == old[k]
        &&& res.no_duplicates()
        &&& res.to_set() == improved_ids(d1.0, s1.0, bound)
    } else if src_match {
        &&& new == old.insert(dst, inserted_set(d1, src, time, bound))
        &&& res == seq![src]
    } else {
        &&& new == old.insert(dst, d1)
        &&& res == Seq::<u64>::empty()
    }
}

#[verifier::external_type_specification]
#[verifier::external_body]
#[verifier::reject_recursive_types(N)]
#[verifier::reject_recursive_types(E)]
#[verifier::reject_recursive_types(Ty)]
#[verifier::reject_recursive_types(S)]
pub struct ExGraphMap<N, E, Ty, S>(GraphMap<N, E, Ty, S>) where S: BuildHasher;

/// The arcs a graph map holds, as `(source, target)` pairs.
pub uninterp spec fn graph_map_arcs(g: GraphMap<u64, (), Directed>) -> Set<(u64, u64)>;

/// The nodes a graph map holds.
pub uninterp spec fn graph_map_nodes(g: GraphMap<u64, (), Directed>) -> Set<u64>;

/// Once an arc from a matching `src` to `dst` is added at `time`, the flow from `src` to `dst`
/// is recorded as updated at `time`, provided no recorded time is later than `time` and a
/// matching node that has a reach set holds itself in it.
pub proof fn lemma_arc_sets_flow_time(
    old: Map<u64, (Map<u64, u64>, u64, u64)>,
    new: Map<u64, (Map<u64, u64>, u64, u64)>,
    res: Seq<u64>,
    src: u64,
    dst: u64,
    time: u64,
    window: u64,
    dst_match: bool,
)
    requires
        src != dst,
        arc_added(old, new, res, src, dst, time, window, true, dst_match),
        old.contains_key(src) ==> old[src].0.contains_key(src),
        forall|k: u64, x: u64| old.contains_key(k) && #[trigger] old[k].0.contains_key(x) ==> old[k].0[x] <= time,
    ensures
        new.contains_key(dst),
        new[dst].0.contains_key(src),
        new[dst].0[src] == time,
{
    let bound = window_start(time, window);
    let d0 = if old.contains_key(dst) { old[dst] } else { fresh_set(dst, time, dst_match) };
    let d1 = refreshed_set(d0, dst, time);
    assert(d1.0.contains_key(src) ==> d1.0[src] == d0.0[src]);
    if old.contains_key(dst) && d0.0.contains_key(src) {
        assert(old[dst].0[src] <= time);
    }
    if old.contains_key(src) {
        let s1 = refreshed_set(old[src], src, time);
        assert(s1.0.contains_key(src) && s1.0[src] == time);
        assert(new.dom().contains(dst));
    } else {
        assert(new == old.insert(dst, inserted_set(d1, src, time, bound)));
    }
}

/// No recorded time in `v` is later than `t`, and every node that `matches` and has a reach set
/// holds itself in it.
pub open spec fn times_upto(v: Map<u64, (Map<u64, u64>, u64, u64)>, t: u64, matches: spec_fn(u64) -> bool) -> bool {
    &&& forall|k: u64, x: u64| v.contains_key(k) && #[trigger] v[k].0.contains_key(x) ==> v[k].0[x] <= t
    &&& forall|k: u64| #[trigger] v.contains_key(k) && matches(k) ==> v[k].0.contains_key(k)
}

/// No time recorded in `v` is later than `cap`.
pub open spec fn capped(v: Map<u64, (Map<u64, u64>, u64, u64)>, cap: u64) -> bool {
    forall|k: u64, x: u64| v.contains_key(k) && #[trigger] v[k].0.contains_key(x) ==> v[k].0[x] <= cap
}

/// Every node that `matches` and has a set in `v` holds itself in it.
pub open spec fn self_held(v: Map<u64, (Map<u64, u64>, u64, u64)>, matches: spec_fn(u64) -> bool) -> bool {
    forall|k: u64| #[trigger] v.contains_key(k) && matches(k) ==> v[k].0.contains_key(k)
}

/// `is_match` answers as `matches` says.
pub open spec fn answers_as<F: Fn(u64) -> bool>(is_match: F, matches: spec_fn(u64) -> bool) -> bool {
    forall|x: u64, b: bool| #[trigger] is_match.ensures((x,), b) ==> b == matches(x)
}

/// `views` are the reach sets of a tracer along a run of calls from a new tracer with window
/// `window`, with `matches` saying which nodes match in every call and times that never go
/// back: call `i` at time `calls[i].2` is, where `batched[i]`, an `add_batch`, which keeps every
/// recorded time at most a cap not before its time and every matching node in its own set;
/// otherwise it is an `add_arc` of the arc from `calls[i].0` to `calls[i].1`, returning
/// `results[i]`.
pub open spec fn flow_run(
    views: Seq<Map<u64, (Map<u64, u64>, u64, u64)>>,
    calls: Seq<(u64, u64, u64)>,
    batched: Seq<bool>,
    results: Seq<Seq<u64>>,
    window: u64,
    matches: spec_fn(u64) -> bool,
) -> bool {
    &&& views.len() == calls.len() + 1
    &&& results.len() == calls.len()
    &&& batched.len() == calls.len()
    &&& views[0] == Map::<u64, (Map<u64, u64>, u64, u64)>::empty()
    &&& forall|i: int, j: int| 0 <= i < j < calls.len() ==> #[trigger] calls[i].2 <= #[trigger] calls[j].2
    &&& forall|i: int|
        #![trigger views[i + 1]]
        0 <= i < calls.len() ==> {
            let (src, dst, time) = calls[i];
            &&& (batched[i] ==> (forall|cap: u64| capped(views[i], cap) && time <= cap ==> #[trigger] capped(views[i + 1], cap))
                && (self_held(views[i], matches) ==> self_held(views[i + 1], matches)))
            &&& (!batched[i] && src == dst ==> views[i + 1] == views[i])
            &&& (!batched[i] && src != dst ==> arc_added(views[i], views[i + 1], results[i], src, dst, time, window, matches(src), matches(dst)))
        }
}

/// One added arc at a time not before `t0` keeps `times_upto` at its own time.
proof fn lemma_arc_keeps_times(
    old: Map<u64, (Map<u64, u64>, u64, u64)>,
    new: Map<u64, (Map<u64, u64>, u64, u64)>,
    res: Seq<u64>,
    src: u64,
    dst: u64,
    time: u64,
    window: u64,
    matches: spec_fn(u64) -> bool,
    t0: u64,
)
    requires
        times_upto(old, t0, matches),
        t0 <= time,
        src != dst,
        arc_added(old, new, res, src, dst, time, window, matches(src), matches(dst)),
    ensures
        times_upto(new, time, matches),
{
    let bound = window_start(time, window);
    let d0 = if old.contains_key(dst) { old[dst] } else { fresh_set(dst, time, matches(dst)) };
    let d1 = refreshed_set(d0, dst, time);
    assert forall|x: u64| #[trigger] d1.0.contains_key(x) implies d1.0[x] <= time by {
        if old.contains_key(dst) && x != dst {
            assert(old[dst].0.contains_key(x));
        }
    }
    if matches(dst) {
        assert(d1.0.contains_key(dst));
    }
    if old.contains_key(src) {
        let s1 = refreshed_set(old[src], src, time);
        assert forall|x: u64| #[trigger] s1.0.contains_key(x) implies s1.0[x] <= time by {
            if x != src {
                assert(old[src].0.contains_key(x));
            }
        }
        assert forall|k: u64, x: u64| new.contains_key(k) && #[trigger] new[k].0.contains_key(x) implies new[k].0[x] <= time by {
            if k != src && k != dst {
                assert(old[k].0.contains_key(x));
            }
        }
        assert forall|k: u64| #[trigger] new.contains_key(k) && matches(k) implies new[k].0.contains_key(k) by {
            if k == dst {
                assert(d1.0.contains_key(dst));
            } else if k != src {
                assert(old.contains_key(k));
            }
        }
    } else {
        assert forall|k: u64, x: u64| new.contains_key(k) && #[trigger] new[k].0.contains_key(x) implies new[k].0[x] <= time by {
            if k != dst {
                assert(old[k].0.contains_key(x));
            }
        }
        assert forall|k: u64| #[trigger] new.contains_key(k) && matches(k) implies new[k].0.contains_key(k) by {
            if k == dst {
                assert(d1.0.contains_key(dst));
            } else {
                assert(old.contains_key(k));
            }
        }
    }
}

proof fn lemma_run_times(
    views: Seq<Map<u64, (Map<u64, u64>, u64, u64)>>,
    calls: Seq<(u64, u64, u64)>,
    batched: Seq<bool>,
    results: Seq<Seq<u64>>,
    window: u64,
    matches: spec_fn(u64) -> bool,
    k: int,
)
    requires
        flow_run(views, calls, batched, results, window, matches),
        1 <= k <= calls.len(),
    ensures
        times_upto(views[k], calls[k - 1].2, matches),
    decreases k,
{
    let i = k - 1;
    let (src, dst, time) = calls[i];
    if k == 1 {
        assert(times_upto(views[0], time, matches));
    } else {
        lemma_run_times(views, calls, batched, results, window, matches, k - 1);
        assert(calls[k - 2].2 <= calls[k - 1].2);
    }
    let t0: u64 = if k == 1 { time } else { calls[k - 2].2 };
    assert(views[i + 1] == views[k]);
    if batched[i] {
        assert(capped(views[i], time));
        assert(capped(views[k], time));
        assert(self_held(views[i], matches));
    } else if src != dst {
        lemma_arc_keeps_times(views[i], views[k], results[i], src, dst, time, window, matches, t0);
    } else {
        assert forall|a: u64, x: u64| views[k].contains_key(a) && #[trigger] views[k][a].0.contains_key(x) implies views[k][a].0[x] <= time by {
            assert(views[i][a].0.contains_key(x));
        }
    }
}

/// Along any run of `add_arc` and `add_batch` calls from a new tracer, with one matching
/// predicate and times that never go back (and no `del_outdated` between them), once the last
/// call adds an arc from a matching `src` to another node `dst` at `time`, the flow from `src`
/// into `dst` is recorded as started at `time`: `get_updated_time(src, dst)` gives `Some(time)`.
pub proof fn lemma_run_sets_flow_time(
    views: Seq<Map<u64, (Map<u64, u64>, u64, u64)>>,
    calls: Seq<(u64, u64, u64)>,
    batched: Seq<bool>,
    results: Seq<Seq<u64>>,
    window: u64,
    matches: spec_fn(u64) -> bool,
)
    requires
        flow_run(views, calls, batched, results, window, matches),
        calls.len() >= 1,
        !batched.last(),
        calls.last().0 != calls.last().1,
        matches(calls.last().0),
    ensures
        views.last().contains_key(calls.last().1),
        views.last()[calls.last().1].0.contains_key(calls.last().0),
        views.last()[calls.last().1].0[calls.last().0] == calls.last().2,
{
    let n = calls.len() as int;
    let i = n - 1;
    let (src, dst, time) = calls[i];
    assert(views[i + 1] == views.last());
    assert(!batched[i]);
    if n == 1 {
        assert(times_upto(views[0], time, matches));
    } else {
        lemma_run_times(views, calls, batched, results, window, matches, n - 1);
        assert(calls[n - 2].2 <= calls[n - 1].2);
    }
    let old = views[i];
    assert(forall|k: u64, x: u64| old.contains_key(k) && #[trigger] old[k].0.contains_key(x) ==> old[k].0[x] <= time);
    lemma_arc_sets_flow_time(old, views.last(), results[i], src, dst, time, window, matches(dst));
}

/// The nodes at either end of an arc of `arcs`.
pub open spec fn end_nodes(arcs: Seq<(u64, u64)>) -> Set<u64> {
    Set::new(|x: u64| exists|i: int| 0 <= i < arcs.len() && (arcs[i].0 == x || arcs[i].1 == x))
}

/// `sccs` lists the strongly connected components of the graph with `arcs` and `nodes`: each
/// holds a node, every node is in exactly one, and a component comes before every component
/// with an arc into it.
pub open spec fn is_scc_order(sccs: Seq<Seq<u64>>, arcs: Set<(u64, u64)>, nodes: Set<u64>) -> bool {
    &&& forall|i: int| 0 <= i < sccs.len() ==> #[trigger] sccs[i].len() > 0
    &&& forall|i: int, a: int| 0 <= i < sccs.len() && 0 <= a < sccs[i].len() ==> nodes.contains(#[trigger] sccs[i][a])
    &&& forall|x: u64| #[trigger] nodes.contains(x) ==> exists|i: int, a: int|
        0 <= i < sccs.len() && 0 <= a < sccs[i].len() && #[trigger] sccs[i][a] == x
    &&& forall|i: int, a: int, j: int, b: int|
        0 <= i < sccs.len() && 0 <= a < sccs[i].len() && 0 <= j < sccs.len() && 0 <= b < sccs[j].len()
            && #[trigger] sccs[i][a] == #[trigger] sccs[j][b] ==> i == j && a == b
    &&& forall|i: int, a: int, j: int, b: int|
        0 <= i < sccs.len() && 0 <= a < sccs[i].len() && 0 <= j < sccs.len() && 0 <= b < sccs[j].len()
            && arcs.contains((#[trigger] sccs[i][a], #[trigger] sccs[j][b])) ==> j <= i
}

/// Builds a directed graph map from arcs.
///
/// Calls `petgraph::graphmap::GraphMap::from_edges`, which adds each arc once and the nodes
/// at its ends. The contract claims that the graph holds exactly those arcs and nodes.
#[verifier::external_body]
fn arc_graph(batch: &[(u64, u64)]) -> (g: GraphMap<u64, (), Directed>)
    ensures
        graph_map_arcs(g) == batch@.to_set(),
        graph_map_nodes(g) == end_nodes(batch@),
{
    GraphMap::from_edges(batch.iter().copied())
}

/// Calls `petgraph::graphmap::GraphMap::neighbors_directed` with `Direction::Outgoing`, which
/// yields the target of each arc that leaves `node`, once each (nothing for a node not in
/// the graph).
#[verifier::external_body]
fn graph_map_successors(g: &GraphMap<u64, (), Directed>, node: u64) -> (res: Vec<u64>)
    ensures
        res@.no_duplicates(),
        res@.to_set() == Set::new(|v: u64| graph_map_arcs(*g).contains((node, v))),
{
    g.neighbors_directed(node, Direction::Outgoing).collect()
}

/// `p` is a walk along the arcs `arcs`.
pub open spec fn walk_in(arcs: Set<(u64, u64)>, p: Seq<u64>) -> bool {
    &&& p.len() >= 1
    &&& forall|k: int| 0 <= k < p.len() - 1 ==> arcs.contains((#[trigger] p[k], p[k + 1]))
}

/// A walk along `arcs` leads from `u` to `v` (of no arc when they are the same node).
pub open spec fn reaches(arcs: Set<(u64, u64)>, u: u64, v: u64) -> bool {
    exists|p: Seq<u64>| #[trigger] walk_in(arcs, p) && p[0] == u && p.last() == v
}

/// Walks along `arcs` lead from `u` to `v` and from `v` back to `u`.
#[verifier::opaque]
pub open spec fn mutually_reach(arcs: Set<(u64, u64)>, u: u64, v: u64) -> bool {
    reaches(arcs, u, v) && reaches(arcs, v, u)
}

proof fn lemma_reaches_self(arcs: Set<(u64, u64)>, u: u64)
    ensures
        reaches(arcs, u, u),
{
    assert(walk_in(arcs, seq![u]));
}

/// A walk to the source of an arc goes on to its target.
proof fn lemma_reaches_arc(arcs: Set<(u64, u64)>, u: u64, v: u64, w: u64)
    requires
        reaches(arcs, u, v),
        arcs.contains((v, w)),
    ensures
        reaches(arcs, u, w),
{
    let p = choose|p: Seq<u64>| #[trigger] walk_in(arcs, p) && p[0] == u && p.last() == v;
    let q = p.push(w);
    assert forall|k: int| 0 <= k < q.len() - 1 implies arcs.contains((#[trigger] q[k], q[k + 1])) by {
        if k < p.len() - 1 {
            assert(q[k] == p[k] && q[k + 1] == p[k + 1]);
        } else {
            assert(q[k] == v);
        }
    }
    assert(walk_in(arcs, q));
}

/// Two walks that meet make one.
#[verifier::spinoff_prover]
proof fn lemma_reaches_trans(arcs: Set<(u64, u64)>, u: u64, v: u64, w: u64)
    requires
        reaches(arcs, u, v),
        reaches(arcs, v, w),
    ensures
        reaches(arcs, u, w),
{
    let p = choose|p: Seq<u64>| #[trigger] walk_in(arcs, p) && p[0] == u && p.last() == v;
    let q = choose|q: Seq<u64>| #[trigger] walk_in(arcs, q) && q[0] == v && q.last() == w;
    let r = p + q.drop_first();
    assert forall|k: int| 0 <= k < r.len() - 1 implies arcs.contains((#[trigger] r[k], r[k + 1])) by {
        if k < p.len() - 1 {
            assert(r[k] == p[k] && r[k + 1] == p[k + 1]);
        } else if k == p.len() - 1 {
            assert(r[k] == v);
            assert(r[k + 1] == q[1]);
            assert(q[0] == v);
        } else {
            let t = k - p.len() + 1;
            assert(r[k] == q[t] && r[k + 1] == q[t + 1]);
        }
    }
    assert(walk_in(arcs, r));
    if q.len() == 1 {
        assert(r =~= p);
    } else {
        assert(r.last() == q.last());
    }
}

/// Two nodes of `sccs` are in one component exactly when walks along `arcs` lead from each to
/// the other.
#[verifier::opaque]
pub open spec fn components_exact(sccs: Seq<Seq<u64>>, arcs: Set<(u64, u64)>) -> bool {
    forall|i: int, a: int, j: int, b: int|
        0 <= i < sccs.len() && 0 <= a < sccs[i].len() && 0 <= j < sccs.len() && 0 <= b < sccs[j].len()
            ==> (i == j <==> mutually_reach(arcs, #[trigger] sccs[i][a], #[trigger] sccs[j][b]))
}

/// `key` maps each node to the position of its component in `sv`.
pub open spec fn keyed(sv: Seq<Seq<u64>>, nodes: Set<u64>, key: Map<u64, usize>) -> bool {
    &&& forall|i: int, a: int| 0 <= i < sv.len() && 0 <= a < sv[i].len() ==> key.contains_key(#[trigger] sv[i][a]) && key[sv[i][a]] == i
    &&& forall|x: u64| #[trigger] nodes.contains(x) <==> key.contains_key(x)
}

/// The components `sv` of the graph with `arcs` and `nodes`, in order and exact, with `key`
/// mapping each node to its component.
#[verifier::opaque]
pub open spec fn scc_facts(sv: Seq<Seq<u64>>, arcs: Set<(u64, u64)>, nodes: Set<u64>, key: Map<u64, usize>) -> bool {
    is_scc_order(sv, arcs, nodes) && components_exact(sv, arcs) && keyed(sv, nodes, key)
}

proof fn lemma_place_of(sv: Seq<Seq<u64>>, arcs: Set<(u64, u64)>, nodes: Set<u64>, key: Map<u64, usize>, v: u64) -> (r: (int, int))
    requires
        is_scc_order(sv, arcs, nodes),
        keyed(sv, nodes, key),
        nodes.contains(v),
    ensures
        0 <= r.0 < sv.len(),
        0 <= r.1 < sv[r.0].len(),
        sv[r.0][r.1] == v,
        key[v] == r.0,
{
    let (i, a) = choose|i: int, a: int| 0 <= i < sv.len() && 0 <= a < sv[i].len() && #[trigger] sv[i][a] == v;
    (i, a)
}

/// A node whose component holds another node shares a cycle with it.
proof fn lemma_multi_is_cycle(sv: Seq<Seq<u64>>, arcs: Set<(u64, u64)>, nodes: Set<u64>, key: Map<u64, usize>, v: u64)
    requires
        scc_facts(sv, arcs, nodes, key),
        key.contains_key(v),
        sv[key[v] as int].len() > 1,
    ensures
        exists|w: u64| w != v && nodes.contains(v) && nodes.contains(w) && #[trigger] mutually_reach(arcs, v, w),
{
    reveal(scc_facts);
    reveal(components_exact);
    let (i, a) = lemma_place_of(sv, arcs, nodes, key, v);
    let c: int = if a == 0 { 1 } else { 0 };
    let w = sv[i][c];
    assert(w != v);
    assert(mutually_reach(arcs, sv[i][a], sv[i][c]));
}

/// Two nodes that share a cycle are in one component.
proof fn lemma_cycle_is_multi(sv: Seq<Seq<u64>>, arcs: Set<(u64, u64)>, nodes: Set<u64>, key: Map<u64, usize>, v: u64, w: u64)
    requires
        scc_facts(sv, arcs, nodes, key),
        nodes.contains(v),
        nodes.contains(w),
        w != v,
        mutually_reach(arcs, v, w),
    ensures
        key.contains_key(v),
        sv[key[v] as int].len() > 1,
{
    reveal(scc_facts);
    reveal(components_exact);
    let (i, a) = lemma_place_of(sv, arcs, nodes, key, v);
    let (j, b) = lemma_place_of(sv, arcs, nodes, key, w);
    assert(i == j);
}

/// An arc joins two components exactly when its target does not reach back its source.
proof fn lemma_cross_arc(sv: Seq<Seq<u64>>, arcs: Set<(u64, u64)>, nodes: Set<u64>, key: Map<u64, usize>, w: u64, v: u64)
    requires
        scc_facts(sv, arcs, nodes, key),
        nodes.contains(v),
        nodes.contains(w),
    ensures
        key[w] != key[v] <==> !mutually_reach(arcs, w, v),
{
    reveal(scc_facts);
    reveal(components_exact);
    let (i, a) = lemma_place_of(sv, arcs, nodes, key, w);
    let (j, b) = lemma_place_of(sv, arcs, nodes, key, v);
    assert(i == j <==> mutually_reach(arcs, sv[i][a], sv[j][b]));
}

/// The nodes whose component holds another node, and the targets of arcs between two
/// components, are those that share a cycle with another node and those that an arc reaches
/// from a node they do not reach back.
proof fn lemma_touched_nodes(
    sv: Seq<Seq<u64>>,
    arcs: Set<(u64, u64)>,
    nodes: Set<u64>,
    key: Map<u64, usize>,
    touched: Set<u64>,
)
    requires
        scc_facts(sv, arcs, nodes, key),
        forall|w: u64, v: u64| #[trigger] arcs.contains((w, v)) ==> nodes.contains(w) && nodes.contains(v),
        forall|v: u64| #[trigger] touched.contains(v) <==> (key.contains_key(v) && sv[key[v] as int].len() > 1) || exists|w: u64|
            #[trigger] arcs.contains((w, v)) && key[w] != key[v],
    ensures
        forall|v: u64| #[trigger] touched.contains(v) <==> (exists|w: u64| w != v && nodes.contains(v) && nodes.contains(w)
            && #[trigger] mutually_reach(arcs, v, w)) || (exists|w: u64| #[trigger] arcs.contains((w, v)) && !mutually_reach(arcs, w, v)),
{
    assert forall|v: u64| #[trigger] touched.contains(v) <==> (exists|w: u64| w != v && nodes.contains(v) && nodes.contains(w)
        && #[trigger] mutually_reach(arcs, v, w)) || (exists|w: u64| #[trigger] arcs.contains((w, v)) && !mutually_reach(arcs, w, v)) by {
        if key.contains_key(v) && sv[key[v] as int].len() > 1 {
            lemma_multi_is_cycle(sv, arcs, nodes, key, v);
        }
        if exists|w: u64| #[trigger] arcs.contains((w, v)) && key[w] != key[v] {
            let w = choose|w: u64| #[trigger] arcs.contains((w, v)) && key[w] != key[v];
            lemma_cross_arc(sv, arcs, nodes, key, w, v);
        }
        if exists|w: u64| w != v && nodes.contains(v) && nodes.contains(w) && #[trigger] mutually_reach(arcs, v, w) {
            let w = choose|w: u64| w != v && nodes.contains(v) && nodes.contains(w) && #[trigger] mutually_reach(arcs, v, w);
            lemma_cycle_is_multi(sv, arcs, nodes, key, v, w);
        }
        if exists|w: u64| #[trigger] arcs.contains((w, v)) && !mutually_reach(arcs, w, v) {
            let w = choose|w: u64| #[trigger] arcs.contains((w, v)) && !mutually_reach(arcs, w, v);
            lemma_cross_arc(sv, arcs, nodes, key, w, v);
        }
    }
}

/// The nodes that a batch touches: those whose component holds another node, and the targets
/// of arcs between two components, described by the walks of the batch.
proof fn lemma_batch_touched(
    batch: Seq<(u64, u64)>,
    sv: Seq<Seq<u64>>,
    key: Map<u64, usize>,
    touched: Set<u64>,
)
    requires
        is_scc_order(sv, batch.to_set(), end_nodes(batch)),
        components_exact(sv, batch.to_set()),
        forall|i: int, a: int| 0 <= i < sv.len() && 0 <= a < sv[i].len() ==> key.contains_key(#[trigger] sv[i][a]) && key[sv[i][a]] == i,
        forall|x: u64| #[trigger] end_nodes(batch).contains(x) <==> key.contains_key(x),
        forall|v: u64| #[trigger] touched.contains(v) <==> (key.contains_key(v) && sv[key[v] as int].len() > 1) || exists|w: u64|
            #[trigger] batch.to_set().contains((w, v)) && key[w] != key[v],
    ensures
        forall|v: u64| #[trigger] touched.contains(v) <==> (exists|w: u64| w != v && end_nodes(batch).contains(v) && end_nodes(batch).contains(w)
            && #[trigger] mutually_reach(batch.to_set(), v, w)) || (exists|w: u64| #[trigger] batch.to_set().contains((w, v))
            && !mutually_reach(batch.to_set(), w, v)),
{
    let arcs = batch.to_set();
    let nodes = end_nodes(batch);
    assert(keyed(sv, nodes, key));
    assert forall|w: u64, v: u64| #[trigger] arcs.contains((w, v)) implies nodes.contains(w) && nodes.contains(v) by {
        let e = choose|e: int| 0 <= e < batch.len() && batch[e] == (w, v);
        assert(batch[e].0 == w && batch[e].1 == v);
    }
    assert(scc_facts(sv, arcs, nodes, key)) by {
        reveal(scc_facts);
    }
    lemma_touched_nodes(sv, arcs, nodes, key, touched);
}

/// Walks lead between any two nodes of one component.
proof fn lemma_component_reaches(sv: Seq<Seq<u64>>, arcs: Set<(u64, u64)>, i: int, a: int, b: int)
    requires
        components_exact(sv, arcs),
        0 <= i < sv.len(),
        0 <= a < sv[i].len(),
        0 <= b < sv[i].len(),
    ensures
        reaches(arcs, sv[i][a], sv[i][b]),
{
    reveal(components_exact);
    reveal(mutually_reach);
    assert(mutually_reach(arcs, sv[i][a], sv[i][b]));
}

/// What the sets of the components hold came from a node that a walk leads to the node, so
/// the same holds of every node's reach set after a batch.
proof fn lemma_sets_sourced<F: Fn(u64) -> bool>(
    old_view: Map<u64, (Map<u64, u64>, u64, u64)>,
    new_view: Map<u64, (Map<u64, u64>, u64, u64)>,
    sets_v: Seq<(Map<u64, u64>, u64, u64)>,
    sv: Seq<Seq<u64>>,
    arcs: Set<(u64, u64)>,
    key: Map<u64, usize>,
    ends: Set<u64>,
    is_match: F,
)
    requires
        components_exact(sv, arcs),
        sets_v.len() == sv.len(),
        forall|i: int, a: int| 0 <= i < sv.len() && 0 <= a < sv[i].len() ==> key.contains_key(#[trigger] sv[i][a]) && key[sv[i][a]] == i,
        forall|x: u64| #[trigger] key.contains_key(x) ==> {
            let i = key[x] as int;
            0 <= i < sv.len() && exists|a: int| 0 <= a < sv[i].len() && sv[i][a] == x
        },
        forall|v: u64| #[trigger] ends.contains(v) <==> key.contains_key(v),
        forall|v: u64| #[trigger] ends.contains(v) ==> new_view.contains_key(v) && new_view[v] == sets_v[key[v] as int],
        forall|v: u64| new_view.contains_key(v) && !ends.contains(v) ==> #[trigger] old_view.contains_key(v) && new_view[v] == old_view[v],
        forall|j: int, x: u64| 0 <= j < sv.len() && #[trigger] sets_v[j].0.contains_key(x) ==> exists|w: u64, c: int|
            0 <= c < sv[j].len() && #[trigger] reaches(arcs, w, sv[j][c]) && sourced_at(old_view, is_match, x, w),
    ensures
        forall|v: u64, x: u64| new_view.contains_key(v) && #[trigger] new_view[v].0.contains_key(x) ==> exists|w: u64|
            #[trigger] reaches(arcs, w, v) && sourced_at(old_view, is_match, x, w),
{
    assert forall|v: u64, x: u64| new_view.contains_key(v) && #[trigger] new_view[v].0.contains_key(x) implies exists|w: u64|
        #[trigger] reaches(arcs, w, v) && sourced_at(old_view, is_match, x, w) by {
        if ends.contains(v) {
            let j = key[v] as int;
            let b = choose|b: int| 0 <= b < sv[j].len() && sv[j][b] == v;
            assert(sets_v[j].0.contains_key(x));
            let (w, c) = choose|w: u64, c: int| 0 <= c < sv[j].len() && #[trigger] reaches(arcs, w, sv[j][c]) && sourced_at(old_view, is_match, x, w);
            lemma_component_reaches(sv, arcs, j, c, b);
            lemma_reaches_trans(arcs, w, sv[j][c], v);
        } else {
            assert(old_view.contains_key(v));
            lemma_reaches_self(arcs, v);
            assert(sourced_at(old_view, is_match, x, v));
        }
    }
}

/// Calls `petgraph::algo::tarjan_scc`. Its documentation returns the strongly connected
/// components, in the reverse of a topological order: the contract claims that they partition
/// the nodes into non-empty lists, that a component comes before every component with an arc
/// into it, and that two nodes are in one component exactly when walks lead from each to the
/// other.
#[verifier::external_body]
fn strongly_connected(g: &GraphMap<u64, (), Directed>) -> (res: Vec<Vec<u64>>)
    ensures
        is_scc_order(res@.map_values(|c: Vec<u64>| c@), graph_map_arcs(*g), graph_map_nodes(*g)),
        components_exact(res@.map_values(|c: Vec<u64>| c@), graph_map_arcs(*g)),
{
    petgraph::algo::tarjan_scc(g)
}

/// `path` is a walk along the arcs of `batch`.
pub open spec fn batch_walk(batch: Seq<(u64, u64)>, path: Seq<u64>) -> bool {
    &&& path.len() >= 1
    &&& forall|k: int| 0 <= k < path.len() - 1 ==> batch.contains((#[trigger] path[k], path[k + 1]))
}

/// Along a walk of at least one arc, when every arc leads to a component no later than that
/// of its source, the walk ends in a component no later than the one it starts in.
proof fn lemma_walk_keys(batch: Seq<(u64, u64)>, key: Map<u64, usize>, p: Seq<u64>)
    requires
        p.len() >= 2,
        batch_walk(batch, p),
        forall|u: u64, v: u64| #[trigger] batch.contains((u, v))
            ==> key.contains_key(u) && key.contains_key(v) && key[v] <= key[u],
    ensures
        key.contains_key(p[0]) && key.contains_key(p.last()) && key[p.last()] <= key[p[0]],
    decreases p.len(),
{
    assert(batch.contains((p[p.len() - 2], p[p.len() - 1])));
    if p.len() > 2 {
        let r = p.drop_last();
        assert forall|k: int| 0 <= k < r.len() - 1 implies batch.contains((#[trigger] r[k], r[k + 1])) by {
            assert(r[k] == p[k] && r[k + 1] == p[k + 1]);
        }
        lemma_walk_keys(batch, key, r);
    } else {
        assert(batch.contains((p[0], p[1])));
    }
}

/// Every node of `a` within the bound is in `b`, at a time not older than in `a`.
pub open spec fn flows_into(a: (Map<u64, u64>, u64, u64), b: (Map<u64, u64>, u64, u64), bound: u64) -> bool {
    forall|x: u64| #[trigger] a.0.contains_key(x) && a.0[x] >= bound ==> b.0.contains_key(x) && a.0[x] <= b.0[x]
}

/// Adds the nodes of `ids`, but `except`, to the nodes recorded as updated for `node`, creating
/// the record when there is none.
fn record_updates(updated: &mut HashMap<u64, HashSet<u64>>, node: u64, ids: &Vec<u64>, except: Option<u64>)
    ensures
        final(updated)@.dom() == old(updated)@.dom().insert(node),
        forall|k: u64| #[trigger] old(updated)@.contains_key(k) && k != node ==> final(updated)@[k] == old(updated)@[k],
        final(updated)@[node]@ == ({
            let before = if old(updated)@.contains_key(node) { old(updated)@[node]@ } else { Set::<u64>::empty() };
            let all = before + ids@.to_set();
            match except {
                Some(e) => all.remove(e),
                None => all,
            }
        }),
{
    let ghost before = if updated@.contains_key(node) { updated@[node]@ } else { Set::<u64>::empty() };
    let mut set: HashSet<u64> = match updated.remove(&node) {
        Some(s) => s,
        None => HashSet::new(),
    };
    let ghost mid = updated@;
    let mut k: usize = 0;
    while k < ids.len()
        invariant
            k <= ids@.len(),
            set@ == before + ids@.take(k as int).to_set(),
        decreases ids@.len() - k,
    {
        let x = ids[k];
        set.insert(x);
        proof {
            assert(ids@.take(k + 1) =~= ids@.take(k as int).push(x));
            ids@.take(k as int).lemma_push_to_set_commute(x);
            assert(set@ =~= before + ids@.take(k + 1).to_set());
        }
        k += 1;
    }
    proof {
        assert(ids@.take(ids@.len() as int) =~= ids@);
    }
    match except {
        Some(e) => {
            set.remove(&e);
        },
        None => {},
    }
    updated.insert(node, set);
    proof {
        assert(updated@.dom() =~= old(updated)@.dom().insert(node));
    }
}

/// A set that flows into `b` flows into every set holding the nodes of `b`.
proof fn lemma_flows_grow(a: (Map<u64, u64>, u64, u64), b: (Map<u64, u64>, u64, u64), c: (Map<u64, u64>, u64, u64), bound: u64)
    requires
        flows_into(a, b, bound),
        grows(b.0, c.0),
    ensures
        flows_into(a, c, bound),
{
    assert forall|x: u64| #[trigger] a.0.contains_key(x) && a.0[x] >= bound implies c.0.contains_key(x) && a.0[x] <= c.0[x] by {
        assert(b.0.contains_key(x));
    }
}

/// A union keeps every node of the set it grows, none at an older time, and takes in every node
/// of the other set within the bound, at a time not older.
proof fn lemma_union_grows(m: Map<u64, u64>, o: Map<u64, u64>, bound: u64)
    ensures
        grows(m, unioned(m, o, bound)),
        forall|x: u64| #[trigger] o.contains_key(x) && o[x] >= bound ==> unioned(m, o, bound).contains_key(x) && o[x]
            <= unioned(m, o, bound)[x],
{
}

/// The update times the set of a node that shares no cycle of a batch at `time` starts from:
/// its own set with the node refreshed to `time`, or, when it has none, a new set that holds
/// the node when `matches`.
pub open spec fn start_times(old: Map<u64, (Map<u64, u64>, u64, u64)>, v: u64, time: u64, matches: bool) -> Map<u64, u64> {
    if old.contains_key(v) {
        refreshed(old[v].0, v, time)
    } else {
        fresh_set(v, time, matches).0
    }
}

/// Each component of one node starts from the `start_times` of that node, with `is_match`
/// saying whether a new set holds it.
#[verifier::opaque]
pub open spec fn singles_start<F: Fn(u64) -> bool>(
    init: Seq<Map<u64, u64>>,
    sv: Seq<Seq<u64>>,
    old: Map<u64, (Map<u64, u64>, u64, u64)>,
    time: u64,
    is_match: F,
) -> bool {
    forall|j: int| 0 <= j < sv.len() && #[trigger] sv[j].len() == 1 ==> exists|b: bool|
        #![trigger start_times(old, sv[j][0], time, b)]
        (!old.contains_key(sv[j][0]) ==> is_match.ensures((sv[j][0],), b)) && init[j] == start_times(old, sv[j][0], time, b)
}

/// What a batch at `time` makes of a node `v` that shares no cycle of it, given the final sets
/// `finals`: its final times grow from the times it started from, and each node in them has
/// there its starting time, or the time it has, within the bound, in the final set of a node
/// with an arc of the batch into `v` (with `flows_into` along every arc, its times are the
/// newest of these); the nodes `gained` recorded for `v` are those newer in its final times
/// than in its starting ones.
pub open spec fn alone_result<F: Fn(u64) -> bool>(
    old: Map<u64, (Map<u64, u64>, u64, u64)>,
    is_match: F,
    v: u64,
    time: u64,
    batch: Seq<(u64, u64)>,
    finals: Map<u64, (Map<u64, u64>, u64, u64)>,
    bound: u64,
    gained: Set<u64>,
) -> bool {
    exists|b: bool|
        #![trigger start_times(old, v, time, b)]
        {
            let start = start_times(old, v, time, b);
            let fin = finals[v].0;
            &&& !old.contains_key(v) ==> is_match.ensures((v,), b)
            &&& gained == newer_ids(fin, start)
            &&& grows(start, fin)
            &&& forall|x: u64| #[trigger] fin.contains_key(x) ==> (start.contains_key(x) && fin[x] == start[x]) || exists|u: u64|
                #[trigger] batch.to_set().contains((u, v)) && u != v && finals[u].0.contains_key(x) && finals[u].0[x] == fin[x]
                    && fin[x] >= bound
        }
}

/// What a batch at `time` makes of a node `v` of it that shares no cycle of it and has no arc
/// into it from another node: its final times `fin` are those it started from.
pub open spec fn untouched_result<F: Fn(u64) -> bool>(
    old: Map<u64, (Map<u64, u64>, u64, u64)>,
    is_match: F,
    v: u64,
    time: u64,
    fin: Map<u64, u64>,
) -> bool {
    exists|b: bool|
        #![trigger start_times(old, v, time, b)]
        (!old.contains_key(v) ==> is_match.ensures((v,), b)) && fin == start_times(old, v, time, b)
}

/// The update times of the set of `v` in `old`, or none when it has no set.
pub open spec fn old_times(old: Map<u64, (Map<u64, u64>, u64, u64)>, v: u64) -> Map<u64, u64> {
    if old.contains_key(v) {
        old[v].0
    } else {
        Map::empty()
    }
}

/// Each node `v` of a component of several nodes starts with a record of the nodes newer in
/// the merged set `init` of its component than in its own set, `v` left out.
#[verifier::opaque]
pub open spec fn multis_start(
    upd: Map<u64, HashSet<u64>>,
    init: Seq<Map<u64, u64>>,
    sv: Seq<Seq<u64>>,
    key: Map<u64, usize>,
    old: Map<u64, (Map<u64, u64>, u64, u64)>,
) -> bool {
    forall|v: u64| #[trigger] key.contains_key(v) && sv[key[v] as int].len() > 1 ==> upd.contains_key(v)
        && upd[v]@ == newer_ids(init[key[v] as int], old_times(old, v)).remove(v)
}

/// The sets in `old` of the nodes of `members` that have one, in order.
pub open spec fn member_sets(old: Map<u64, (Map<u64, u64>, u64, u64)>, members: Seq<u64>) -> Seq<(Map<u64, u64>, u64, u64)>
    decreases members.len(),
{
    if members.len() == 0 {
        Seq::empty()
    } else {
        let prev = member_sets(old, members.drop_last());
        if old.contains_key(members.last()) {
            prev.push(old[members.last()])
        } else {
            prev
        }
    }
}

/// `m` after taking in, at `time`, each node of `members` that `matches` says matches, when it is
/// new or older in `m`.
pub open spec fn with_matches(m: Map<u64, u64>, members: Seq<u64>, matches: Seq<bool>, time: u64) -> Map<u64, u64>
    decreases members.len(),
{
    if members.len() == 0 {
        m
    } else {
        let prev = with_matches(m, members.drop_last(), matches.drop_last(), time);
        if matches.last() && improves(prev, members.last(), time, 0) {
            prev.insert(members.last(), time)
        } else {
            prev
        }
    }
}

/// The times the set shared by the nodes `members` of a cycle of a batch at `time` starts from:
/// their sets in `old` merged under the bound, then the matching ones taken in at `time`.
pub open spec fn cycle_start(
    old: Map<u64, (Map<u64, u64>, u64, u64)>,
    members: Seq<u64>,
    matches: Seq<bool>,
    time: u64,
    bound: u64,
) -> Map<u64, u64> {
    with_matches(merged_times(member_sets(old, members), bound), members, matches, time)
}

/// Each component of several nodes starts from the `cycle_start` of its nodes, with `is_match`
/// saying which of them match.
#[verifier::opaque]
pub open spec fn cycles_start<F: Fn(u64) -> bool>(
    init: Seq<Map<u64, u64>>,
    sv: Seq<Seq<u64>>,
    old: Map<u64, (Map<u64, u64>, u64, u64)>,
    time: u64,
    bound: u64,
    is_match: F,
) -> bool {
    forall|j: int| 0 <= j < sv.len() && #[trigger] sv[j].len() > 1 ==> exists|bs: Seq<bool>|
        #![trigger cycle_start(old, sv[j], bs, time, bound)]
        bs.len() == sv[j].len() && (forall|k: int| 0 <= k < bs.len() ==> is_match.ensures((sv[j][k],), #[trigger] bs[k]))
            && init[j] == cycle_start(old, sv[j], bs, time, bound)
}

/// `v` and the nodes that share a cycle of the batch with it.
pub open spec fn cycle_of(batch: Seq<(u64, u64)>, v: u64) -> Set<u64> {
    Set::new(|w: u64| w == v || (end_nodes(batch).contains(w) && mutually_reach(batch.to_set(), v, w)))
}

/// What a batch at `time` makes of a node `v` on a cycle of it, given the final sets `finals`:
/// the nodes of its cycle, listed once each in `members`, start from one shared set `start`
/// (with `bs` saying which of them match); the final times of `v` grow from `start`, each node
/// in them having its time there or the time it has, within the bound, in the final set of a
/// node outside the cycle with an arc into it; and the nodes `gained` recorded for `v` are
/// those newer in `start` than in its old set, `v` left out, and some of those newer in its
/// final times than in `start`.
pub open spec fn cycle_result<F: Fn(u64) -> bool>(
    old: Map<u64, (Map<u64, u64>, u64, u64)>,
    is_match: F,
    v: u64,
    time: u64,
    batch: Seq<(u64, u64)>,
    finals: Map<u64, (Map<u64, u64>, u64, u64)>,
    bound: u64,
    gained: Set<u64>,
) -> bool {
    exists|members: Seq<u64>, bs: Seq<bool>|
        #![trigger cycle_start(old, members, bs, time, bound)]
        {
            let start = cycle_start(old, members, bs, time, bound);
            let fin = finals[v].0;
            let base = newer_ids(start, old_times(old, v)).remove(v);
            &&& members.no_duplicates()
            &&& members.to_set() == cycle_of(batch, v)
            &&& bs.len() == members.len()
            &&& forall|k: int| 0 <= k < bs.len() ==> is_match.ensures((members[k],), #[trigger] bs[k])
            &&& base.subset_of(gained)
            &&& gained.subset_of(base + newer_ids(fin, start))
            &&& grows(start, fin)
            &&& forall|x: u64| #[trigger] fin.contains_key(x) ==> (start.contains_key(x) && fin[x] == start[x]) || exists|u: u64, w: u64|
                #[trigger] batch.to_set().contains((u, w)) && cycle_of(batch, v).contains(w) && !cycle_of(batch, v).contains(u)
                    && finals[u].0.contains_key(x) && finals[u].0[x] == fin[x] && fin[x] >= bound
        }
}

/// `v` shares a cycle of the batch with another node.
pub open spec fn in_batch_cycle(batch: Seq<(u64, u64)>, v: u64) -> bool {
    exists|w: u64| w != v && end_nodes(batch).contains(w) && #[trigger] mutually_reach(batch.to_set(), v, w)
}

/// `m` holds every node of `a`, none at an older time.
pub open spec fn grows(a: Map<u64, u64>, m: Map<u64, u64>) -> bool {
    forall|x: u64| #[trigger] a.contains_key(x) ==> m.contains_key(x) && a[x] <= m[x]
}

/// For the component of each node `v` that is alone in it: the set of the component grows from
/// `init`, the nodes recorded as updated for `v` are those newer in it than in `init`, and
/// without a record the set still has the times of `init`.
#[verifier::opaque]
pub open spec fn singles_ok(
    upd: Map<u64, HashSet<u64>>,
    sets: Seq<ReachSet>,
    init: Seq<Map<u64, u64>>,
    sv: Seq<Seq<u64>>,
    key: Map<u64, usize>,
) -> bool {
    forall|v: u64| #[trigger] key.contains_key(v) && sv[key[v] as int].len() == 1 ==> {
        let j = key[v] as int;
        &&& grows(init[j], sets[j]@.0)
        &&& (upd.contains_key(v) ==> upd[v]@ == newer_ids(sets[j]@.0, init[j]))
        &&& (!upd.contains_key(v) ==> sets[j]@.0 == init[j])
    }
}

/// For the components of several nodes: each node keeps its first record, the set of the
/// component grows from `init`, and every node newer in it than in `init` is recorded for some
/// node of the component.
#[verifier::opaque]
pub open spec fn multis_ok(
    upd: Map<u64, HashSet<u64>>,
    sets: Seq<ReachSet>,
    init: Seq<Map<u64, u64>>,
    init_upd: Map<u64, HashSet<u64>>,
    sv: Seq<Seq<u64>>,
    key: Map<u64, usize>,
) -> bool {
    &&& forall|v: u64| #[trigger] key.contains_key(v) && sv[key[v] as int].len() > 1 ==> {
        &&& upd.contains_key(v) && init_upd.contains_key(v)
        &&& init_upd[v]@.subset_of(upd[v]@)
        &&& upd[v]@.subset_of(init_upd[v]@ + newer_ids(sets[key[v] as int]@.0, init[key[v] as int]))
        &&& grows(init[key[v] as int], sets[key[v] as int]@.0)
    }
    &&& forall|j: int, x: u64| 0 <= j < sv.len() && sv[j].len() > 1 && #[trigger] newer_ids(sets[j]@.0, init[j]).contains(x)
        ==> exists|w: u64| key.contains_key(w) && key[w] == j && upd.contains_key(w) && #[trigger] upd[w]@.contains(x)
}

/// One union of the set of component `i` into that of component `j`, recorded for `dst`, keeps
/// `multis_ok`.
proof fn lemma_multis_step(
    upd0: Map<u64, HashSet<u64>>,
    upd1: Map<u64, HashSet<u64>>,
    sets0: Seq<ReachSet>,
    sets1: Seq<ReachSet>,
    init: Seq<Map<u64, u64>>,
    init_upd: Map<u64, HashSet<u64>>,
    sv: Seq<Seq<u64>>,
    key: Map<u64, usize>,
    i: int,
    j: int,
    dst: u64,
    bound: u64,
)
    requires
        multis_ok(upd0, sets0, init, init_upd, sv, key),
        0 <= j < sets0.len(),
        0 <= i < sets0.len(),
        sets1.len() == sets0.len(),
        key.contains_key(dst),
        key[dst] == j,
        forall|k: int| 0 <= k < sets0.len() && k != j ==> #[trigger] sets1[k] == sets0[k],
        sets1[j]@.0 == unioned(sets0[j]@.0, sets0[i]@.0, bound),
        upd1.dom() == upd0.dom().insert(dst),
        forall|k: u64| #[trigger] upd0.contains_key(k) && k != dst ==> upd1[k] == upd0[k],
        upd1[dst]@ == (if upd0.contains_key(dst) { upd0[dst]@ } else { Set::<u64>::empty() }) + improved_ids(
            sets0[j]@.0,
            sets0[i]@.0,
            bound,
        ),
        forall|x: u64| #[trigger] key.contains_key(x) ==> {
            let k = key[x] as int;
            0 <= k < sv.len() && k < sets0.len() && exists|a: int| 0 <= a < sv[k].len() && sv[k][a] == x
        },
        sv.len() == sets0.len(),
    ensures
        multis_ok(upd1, sets1, init, init_upd, sv, key),
{
    reveal(multis_ok);
    assert forall|v: u64| upd0.contains_key(v) implies #[trigger] upd0[v]@.subset_of(upd1[v]@) by {
        if v != dst {
            assert(upd1[v] == upd0[v]);
        }
    }
    assert forall|v: u64| #[trigger] key.contains_key(v) && sv[key[v] as int].len() > 1 implies {
        &&& upd1.contains_key(v) && init_upd.contains_key(v)
        &&& init_upd[v]@.subset_of(upd1[v]@)
        &&& upd1[v]@.subset_of(init_upd[v]@ + newer_ids(sets1[key[v] as int]@.0, init[key[v] as int]))
        &&& grows(init[key[v] as int], sets1[key[v] as int]@.0)
    } by {
        let k = key[v] as int;
        assert(upd0[v]@.subset_of(upd1[v]@));
        assert(upd0[v]@.subset_of(init_upd[v]@ + newer_ids(sets0[k]@.0, init[k])));
        if k == j {
            lemma_union_newer(init[k], sets0[j]@.0, sets0[i]@.0, bound);
            if v != dst {
                assert(upd1[v] == upd0[v]);
            }
        } else {
            assert(sets1[k] == sets0[k]);
            assert(v != dst);
            assert(upd1[v] == upd0[v]);
        }
    }
    assert forall|k: int, x: u64| 0 <= k < sv.len() && sv[k].len() > 1 && #[trigger] newer_ids(sets1[k]@.0, init[k]).contains(x)
        implies exists|w: u64| key.contains_key(w) && key[w] == k && upd1.contains_key(w) && #[trigger] upd1[w]@.contains(x) by {
        if k == j {
            assert(key.contains_key(dst));
            assert(grows(init[k], sets0[j]@.0)) by {
                assert(key.contains_key(dst) && sv[key[dst] as int].len() > 1);
            }
            lemma_union_newer(init[k], sets0[j]@.0, sets0[i]@.0, bound);
            if newer_ids(sets0[k]@.0, init[k]).contains(x) {
                let w = choose|w: u64| key.contains_key(w) && key[w] == k && upd0.contains_key(w) && #[trigger] upd0[w]@.contains(x);
                assert(upd0[w]@.subset_of(upd1[w]@));
                assert(upd1[w]@.contains(x));
            } else {
                assert(improved_ids(sets0[j]@.0, sets0[i]@.0, bound).contains(x));
                assert(upd1[dst]@.contains(x));
            }
        } else {
            assert(sets1[k] == sets0[k]);
            let w = choose|w: u64| key.contains_key(w) && key[w] == k && upd0.contains_key(w) && #[trigger] upd0[w]@.contains(x);
            assert(upd0[w]@.subset_of(upd1[w]@));
            assert(upd1[w]@.contains(x));
        }
    }
}

/// Every node of the set of each component is there with its time in `init`, or with the time
/// it has, within the bound, in the set of a component numbered `lo` or more that has an arc
/// into it.
#[verifier::opaque]
pub open spec fn came_in(
    sets: Seq<ReachSet>,
    init: Seq<Map<u64, u64>>,
    arcs: Set<(u64, u64)>,
    key: Map<u64, usize>,
    lo: int,
    bound: u64,
) -> bool {
    forall|j: int, x: u64| 0 <= j < sets.len() && #[trigger] sets[j]@.0.contains_key(x) ==> (init[j].contains_key(x)
        && sets[j]@.0[x] == init[j][x]) || exists|u: u64, w: u64| #[trigger] arcs.contains((u, w)) && key[w] == j && key[u] != j
        && key[u] >= lo && sets[key[u] as int]@.0.contains_key(x) && sets[key[u] as int]@.0[x] == sets[j]@.0[x]
        && sets[j]@.0[x] >= bound
}

proof fn lemma_came_lower(sets: Seq<ReachSet>, init: Seq<Map<u64, u64>>, arcs: Set<(u64, u64)>, key: Map<u64, usize>, lo: int, lo2: int, bound: u64)
    requires
        came_in(sets, init, arcs, key, lo, bound),
        lo2 <= lo,
    ensures
        came_in(sets, init, arcs, key, lo2, bound),
{
    reveal(came_in);
    assert forall|j: int, x: u64| 0 <= j < sets.len() && #[trigger] sets[j]@.0.contains_key(x) implies (init[j].contains_key(x)
        && sets[j]@.0[x] == init[j][x]) || exists|u: u64, w: u64| #[trigger] arcs.contains((u, w)) && key[w] == j && key[u] != j
        && key[u] >= lo2 && sets[key[u] as int]@.0.contains_key(x) && sets[key[u] as int]@.0[x] == sets[j]@.0[x]
        && sets[j]@.0[x] >= bound by {
        if !(init[j].contains_key(x) && sets[j]@.0[x] == init[j][x]) {
            let (u, w) = choose|u: u64, w: u64| #[trigger] arcs.contains((u, w)) && key[w] == j && key[u] != j
                && key[u] >= lo && sets[key[u] as int]@.0.contains_key(x) && sets[key[u] as int]@.0[x] == sets[j]@.0[x]
                && sets[j]@.0[x] >= bound;
            assert(arcs.contains((u, w)));
        }
    }
}

/// One union of the set of component `i` into that of a lower component `j` along the arc from
/// `src` to `dst` keeps `came_in` for the components from `i` on.
proof fn lemma_came_step(
    sets0: Seq<ReachSet>,
    sets1: Seq<ReachSet>,
    init: Seq<Map<u64, u64>>,
    arcs: Set<(u64, u64)>,
    key: Map<u64, usize>,
    i: int,
    j: int,
    src: u64,
    dst: u64,
    bound: u64,
)
    requires
        came_in(sets0, init, arcs, key, i, bound),
        0 <= j < i < sets0.len(),
        sets1.len() == sets0.len(),
        forall|k: int| 0 <= k < sets0.len() && k != j ==> #[trigger] sets1[k] == sets0[k],
        sets1[j]@.0 == unioned(sets0[j]@.0, sets0[i]@.0, bound),
        arcs.contains((src, dst)),
        key.contains_key(src) && key[src] == i,
        key.contains_key(dst) && key[dst] == j,
        forall|u: u64, w: u64| #[trigger] arcs.contains((u, w)) ==> key.contains_key(u) && key[u] < sets0.len(),
    ensures
        came_in(sets1, init, arcs, key, i, bound),
{
    reveal(came_in);
    assert forall|k: int, x: u64| 0 <= k < sets1.len() && #[trigger] sets1[k]@.0.contains_key(x) implies (init[k].contains_key(x)
        && sets1[k]@.0[x] == init[k][x]) || exists|u: u64, w: u64| #[trigger] arcs.contains((u, w)) && key[w] == k && key[u] != k
        && key[u] >= i && sets1[key[u] as int]@.0.contains_key(x) && sets1[key[u] as int]@.0[x] == sets1[k]@.0[x]
        && sets1[k]@.0[x] >= bound by {
        let m = sets0[j]@.0;
        let o = sets0[i]@.0;
        if k == j && o.contains_key(x) && improves(m, x, o[x], bound) {
            assert(sets1[i as int] == sets0[i as int]);
            assert(arcs.contains((src, dst)));
        } else {
            if k == j {
                assert(m.contains_key(x));
                assert(sets1[k]@.0[x] == m[x]);
            } else {
                assert(sets1[k] == sets0[k]);
            }
            assert(sets0[k]@.0.contains_key(x));
            if !(init[k].contains_key(x) && sets0[k]@.0[x] == init[k][x]) {
                let (u, w) = choose|u: u64, w: u64| #[trigger] arcs.contains((u, w)) && key[w] == k && key[u] != k
                    && key[u] >= i && sets0[key[u] as int]@.0.contains_key(x) && sets0[key[u] as int]@.0[x] == sets0[k]@.0[x]
                    && sets0[k]@.0[x] >= bound;
                assert(sets1[key[u] as int] == sets0[key[u] as int]);
                assert(arcs.contains((u, w)));
            }
        }
    }
}

/// Taking `o` into a set `m` that grew from `init`: the nodes newer than in `init` become
/// those of `m` and those the union improves.
proof fn lemma_union_newer(init: Map<u64, u64>, m: Map<u64, u64>, o: Map<u64, u64>, bound: u64)
    requires
        grows(init, m),
    ensures
        newer_ids(unioned(m, o, bound), init) == newer_ids(m, init) + improved_ids(m, o, bound),
        grows(init, unioned(m, o, bound)),
{
    let u = unioned(m, o, bound);
    assert forall|x: u64| #[trigger] init.contains_key(x) implies u.contains_key(x) && init[x] <= u[x] by {
        assert(m.contains_key(x));
    }
    assert forall|x: u64| newer_ids(u, init).contains(x) == (newer_ids(m, init) + improved_ids(m, o, bound)).contains(x) by {
        if init.contains_key(x) {
            assert(m.contains_key(x));
        }
    }
    assert(newer_ids(u, init) =~= newer_ids(m, init) + improved_ids(m, o, bound));
}

/// One union of the set of component `i` into that of component `j`, recorded for `dst`, keeps
/// `singles_ok`.
proof fn lemma_singles_step(
    upd0: Map<u64, HashSet<u64>>,
    upd1: Map<u64, HashSet<u64>>,
    sets0: Seq<ReachSet>,
    sets1: Seq<ReachSet>,
    init: Seq<Map<u64, u64>>,
    sv: Seq<Seq<u64>>,
    key: Map<u64, usize>,
    i: int,
    j: int,
    dst: u64,
    bound: u64,
)
    requires
        singles_ok(upd0, sets0, init, sv, key),
        0 <= j < sets0.len(),
        0 <= i < sets0.len(),
        sets1.len() == sets0.len(),
        key.contains_key(dst),
        key[dst] == j,
        forall|k: int| 0 <= k < sets0.len() && k != j ==> #[trigger] sets1[k] == sets0[k],
        sets1[j]@.0 == unioned(sets0[j]@.0, sets0[i]@.0, bound),
        upd1.dom() == upd0.dom().insert(dst),
        forall|k: u64| #[trigger] upd0.contains_key(k) && k != dst ==> upd1[k] == upd0[k],
        upd1[dst]@ == (if upd0.contains_key(dst) { upd0[dst]@ } else { Set::<u64>::empty() }) + improved_ids(
            sets0[j]@.0,
            sets0[i]@.0,
            bound,
        ),
        forall|x: u64| #[trigger] key.contains_key(x) ==> {
            let k = key[x] as int;
            0 <= k < sv.len() && k < sets0.len() && exists|a: int| 0 <= a < sv[k].len() && sv[k][a] == x
        },
    ensures
        singles_ok(upd1, sets1, init, sv, key),
{
    reveal(singles_ok);
    assert forall|v: u64| #[trigger] key.contains_key(v) && sv[key[v] as int].len() == 1 implies {
        let k = key[v] as int;
        &&& grows(init[k], sets1[k]@.0)
        &&& (upd1.contains_key(v) ==> upd1[v]@ == newer_ids(sets1[k]@.0, init[k]))
        &&& (!upd1.contains_key(v) ==> sets1[k]@.0 == init[k])
    } by {
        let k = key[v] as int;
        if k == j {
            let a = choose|a: int| 0 <= a < sv[k].len() && sv[k][a] == v;
            let b = choose|b: int| 0 <= b < sv[k].len() && sv[k][b] == dst;
            assert(v == dst);
            if !upd0.contains_key(dst) {
                assert(newer_ids(init[k], init[k]) =~= Set::<u64>::empty());
                assert forall|x: u64| #[trigger] init[k].contains_key(x) implies init[k].contains_key(x) && init[k][x] <= init[k][x] by {}
            }
            lemma_union_newer(init[k], sets0[j]@.0, sets0[i]@.0, bound);
            assert(upd1[v]@ =~= newer_ids(sets1[k]@.0, init[k]));
        } else {
            assert(sets1[k] == sets0[k]);
            if v == dst {
                assert(key[v] == j);
            }
        }
    }
}

/// The nodes recorded for a node that shares no cycle of the batch are those its final set
/// gained over the set it started from.
proof fn lemma_single_results<F: Fn(u64) -> bool>(
    batch: Seq<(u64, u64)>,
    sv: Seq<Seq<u64>>,
    key: Map<u64, usize>,
    upd: Map<u64, HashSet<u64>>,
    sets: Seq<ReachSet>,
    init: Seq<Map<u64, u64>>,
    old: Map<u64, (Map<u64, u64>, u64, u64)>,
    new_view: Map<u64, (Map<u64, u64>, u64, u64)>,
    time: u64,
    bound: u64,
    is_match: F,
)
    requires
        singles_ok(upd, sets, init, sv, key),
        singles_start(init, sv, old, time, is_match),
        came_in(sets, init, batch.to_set(), key, 0, bound),
        forall|u: u64, w: u64| #[trigger] batch.to_set().contains((u, w)) ==> key.contains_key(u) && key.contains_key(w),
        components_exact(sv, batch.to_set()),
        forall|i: int, a: int, j: int, b: int|
            0 <= i < sv.len() && 0 <= a < sv[i].len() && 0 <= j < sv.len() && 0 <= b < sv[j].len()
                && #[trigger] sv[i][a] == #[trigger] sv[j][b] ==> i == j && a == b,
        forall|i: int, a: int| 0 <= i < sv.len() && 0 <= a < sv[i].len() ==> key.contains_key(#[trigger] sv[i][a]) && key[sv[i][a]] == i,
        forall|x: u64| #[trigger] key.contains_key(x) ==> {
            let i = key[x] as int;
            0 <= i < sv.len() && exists|a: int| 0 <= a < sv[i].len() && sv[i][a] == x
        },
        forall|x: u64| #[trigger] end_nodes(batch).contains(x) <==> key.contains_key(x),
        forall|v: u64| #[trigger] upd.contains_key(v) ==> key.contains_key(v),
        forall|v: u64| #[trigger] key.contains_key(v) ==> new_view.contains_key(v) && new_view[v] == sets[key[v] as int]@,
        init.len() == sv.len(),
        sets.len() == sv.len(),
    ensures
        forall|v: u64| #[trigger] upd.contains_key(v) && !in_batch_cycle(batch, v) ==> alone_result(
            old,
            is_match,
            v,
            time,
            batch,
            new_view,
            bound,
            upd[v]@,
        ),
        forall|v: u64| #[trigger] end_nodes(batch).contains(v) && !in_batch_cycle(batch, v) && !upd.contains_key(v)
            ==> untouched_result(old, is_match, v, time, new_view[v].0),
{
    reveal(singles_ok);
    reveal(singles_start);
    reveal(came_in);
    assert forall|v: u64| #[trigger] end_nodes(batch).contains(v) && !in_batch_cycle(batch, v) && !upd.contains_key(v)
        implies untouched_result(old, is_match, v, time, new_view[v].0) by {
        assert(key.contains_key(v));
        let j = key[v] as int;
        let a = choose|a: int| 0 <= a < sv[j].len() && sv[j][a] == v;
        if sv[j].len() != 1 {
            assert(sv[j].len() >= 2);
            let c: int = if a == 0 { 1 } else { 0 };
            let w = sv[j][c];
            assert(key.contains_key(w) && key[w] == j);
            assert(mutually_reach(batch.to_set(), sv[j][a], sv[j][c])) by {
                reveal(components_exact);
            }
            assert(w != v);
            assert(end_nodes(batch).contains(w));
            assert(mutually_reach(batch.to_set(), v, w));
            assert(in_batch_cycle(batch, v));
        }
        assert(sv[j][0] == v);
        let b = choose|b: bool|
            #![trigger start_times(old, sv[j][0], time, b)]
            (!old.contains_key(sv[j][0]) ==> is_match.ensures((sv[j][0],), b)) && init[j] == start_times(old, sv[j][0], time, b);
        assert(sets[j]@.0 == init[j]);
        assert(new_view[v].0 == start_times(old, v, time, b));
    }
    assert forall|v: u64| #[trigger] upd.contains_key(v) && !in_batch_cycle(batch, v) implies alone_result(
        old,
        is_match,
        v,
        time,
        batch,
        new_view,
        bound,
        upd[v]@,
    ) by {
        let j = key[v] as int;
        let a = choose|a: int| 0 <= a < sv[j].len() && sv[j][a] == v;
        if sv[j].len() != 1 {
            assert(sv[j].len() >= 2);
            let c: int = if a == 0 { 1 } else { 0 };
            assert(0 <= c < sv[j].len());
            let w = sv[j][c];
            assert(0 <= j < sv.len());
            assert(key.contains_key(w) && key[w] == j);
            assert(0 <= a < sv[j].len());
            assert(mutually_reach(batch.to_set(), sv[j][a], sv[j][c])) by {
                reveal(components_exact);
            }
            assert(w != v);
            assert(end_nodes(batch).contains(w));
            assert(mutually_reach(batch.to_set(), v, w));
            assert(in_batch_cycle(batch, v));
        }
        assert(sv[j][0] == v);
        let b = choose|b: bool|
            #![trigger start_times(old, sv[j][0], time, b)]
            (!old.contains_key(sv[j][0]) ==> is_match.ensures((sv[j][0],), b)) && init[j] == start_times(old, sv[j][0], time, b);
        assert(upd[v]@ == newer_ids(sets[j]@.0, init[j]));
        assert(upd[v]@ == newer_ids(new_view[v].0, start_times(old, v, time, b)));
        let start = start_times(old, v, time, b);
        let fin = new_view[v].0;
        assert(fin == sets[j]@.0);
        assert(grows(start, fin));
        assert forall|x: u64| #[trigger] fin.contains_key(x) implies (start.contains_key(x) && fin[x] == start[x]) || exists|u: u64|
            #[trigger] batch.to_set().contains((u, v)) && u != v && new_view[u].0.contains_key(x) && new_view[u].0[x] == fin[x]
                && fin[x] >= bound by {
            assert(sets[j]@.0.contains_key(x));
            if !(init[j].contains_key(x) && sets[j]@.0[x] == init[j][x]) {
                let (u, w) = choose|u: u64, w: u64| #[trigger] batch.to_set().contains((u, w)) && key[w] == j && key[u] != j
                    && key[u] >= 0 && sets[key[u] as int]@.0.contains_key(x) && sets[key[u] as int]@.0[x] == sets[j]@.0[x]
                    && sets[j]@.0[x] >= bound;
                assert(key.contains_key(w) && key.contains_key(u));
                let aw = choose|a: int| 0 <= a < sv[key[w] as int].len() && sv[key[w] as int][a] == w;
                assert(w == v);
                assert(u != v);
                assert(new_view[u] == sets[key[u] as int]@);
                assert(batch.to_set().contains((u, v)));
            }
        }
    }
}

/// Merging sets whose times are at most `cap` gives times at most `cap`.
proof fn lemma_merged_capped(s: Seq<(Map<u64, u64>, u64, u64)>, bound: u64, cap: u64)
    requires
        forall|t: int, x: u64| 0 <= t < s.len() && #[trigger] s[t].0.contains_key(x) ==> s[t].0[x] <= cap,
    ensures
        forall|x: u64| #[trigger] merged_times(s, bound).contains_key(x) ==> merged_times(s, bound)[x] <= cap,
    decreases s.len(),
{
    if s.len() > 0 {
        let prev = s.drop_last();
        assert forall|t: int, x: u64| 0 <= t < prev.len() && #[trigger] prev[t].0.contains_key(x) implies prev[t].0[x] <= cap by {
            assert(prev[t] == s[t]);
        }
        lemma_merged_capped(prev, bound, cap);
        let last = s.last();
        assert forall|x: u64| #[trigger] last.0.contains_key(x) implies last.0[x] <= cap by {
            assert(s[s.len() - 1] == last);
        }
        let m = merged_times(prev, bound);
        assert forall|x: u64| #[trigger] merged_times(s, bound).contains_key(x) implies merged_times(s, bound)[x] <= cap by {
            if joins_merge(last, bound) {
                assert(merged_times(s, bound) == unioned(m, last.0, bound));
                if m.contains_key(x) {
                    assert(m[x] <= cap);
                }
                if last.0.contains_key(x) {
                    assert(last.0[x] <= cap);
                }
            } else {
                assert(merged_times(s, bound) == m);
            }
        }
    }
}

/// The sets of members taken from `old` have the times of `old`.
proof fn lemma_member_sets_capped(old: Map<u64, (Map<u64, u64>, u64, u64)>, members: Seq<u64>, cap: u64)
    requires
        forall|k: u64, x: u64| old.contains_key(k) && #[trigger] old[k].0.contains_key(x) ==> old[k].0[x] <= cap,
    ensures
        forall|t: int, x: u64| 0 <= t < member_sets(old, members).len() && #[trigger] member_sets(old, members)[t].0.contains_key(x)
            ==> member_sets(old, members)[t].0[x] <= cap,
    decreases members.len(),
{
    if members.len() > 0 {
        lemma_member_sets_capped(old, members.drop_last(), cap);
        let prev = member_sets(old, members.drop_last());
        let cur = member_sets(old, members);
        assert forall|t: int, x: u64| 0 <= t < cur.len() && #[trigger] cur[t].0.contains_key(x) implies cur[t].0[x] <= cap by {
            if t < prev.len() {
                assert(cur[t] == prev[t]);
            }
        }
    }
}

/// Taking matching members in at `time` keeps the other times, gives the members `time`, and
/// leaves every matching member in the set.
proof fn lemma_with_matches(m: Map<u64, u64>, members: Seq<u64>, bs: Seq<bool>, time: u64)
    requires
        bs.len() == members.len(),
    ensures
        forall|x: u64| #[trigger] with_matches(m, members, bs, time).contains_key(x) ==> (m.contains_key(x)
            && with_matches(m, members, bs, time)[x] == m[x]) || with_matches(m, members, bs, time)[x] == time,
        forall|k: int| 0 <= k < members.len() && bs[k] ==> with_matches(m, members, bs, time).contains_key(#[trigger] members[k]),
    decreases members.len(),
{
    if members.len() > 0 {
        let pm = members.drop_last();
        let pb = bs.drop_last();
        lemma_with_matches(m, pm, pb, time);
        let prev = with_matches(m, pm, pb, time);
        let cur = with_matches(m, members, bs, time);
        assert forall|k: int| 0 <= k < members.len() && bs[k] implies cur.contains_key(#[trigger] members[k]) by {
            if k < members.len() - 1 {
                assert(pm[k] == members[k] && pb[k] == bs[k]);
                assert(prev.contains_key(members[k]));
            }
        }
    }
}

/// With `came_in` along arcs that never lead to a later component, and starting times at most
/// `cap`, every time of component `j` and the later ones is at most `cap`.
proof fn lemma_sets_capped(
    sets: Seq<ReachSet>,
    init: Seq<Map<u64, u64>>,
    arcs: Set<(u64, u64)>,
    key: Map<u64, usize>,
    bound: u64,
    cap: u64,
    j: int,
)
    requires
        came_in(sets, init, arcs, key, 0, bound),
        init.len() == sets.len(),
        forall|k: int, x: u64| 0 <= k < init.len() && #[trigger] init[k].contains_key(x) ==> init[k][x] <= cap,
        forall|u: u64, w: u64| #[trigger] arcs.contains((u, w)) ==> key.contains_key(u) && key.contains_key(w)
            && key[w] <= key[u] && key[u] < sets.len(),
        0 <= j < sets.len(),
    ensures
        forall|x: u64| #[trigger] sets[j]@.0.contains_key(x) ==> sets[j]@.0[x] <= cap,
    decreases sets.len() - j,
{
    reveal(came_in);
    assert forall|x: u64| #[trigger] sets[j]@.0.contains_key(x) implies sets[j]@.0[x] <= cap by {
        if !(init[j].contains_key(x) && sets[j]@.0[x] == init[j][x]) {
            let (u, w) = choose|u: u64, w: u64| #[trigger] arcs.contains((u, w)) && key[w] == j && key[u] != j
                && key[u] >= 0 && sets[key[u] as int]@.0.contains_key(x) && sets[key[u] as int]@.0[x] == sets[j]@.0[x]
                && sets[j]@.0[x] >= bound;
            assert(key[u] > j);
            lemma_sets_capped(sets, init, arcs, key, bound, cap, key[u] as int);
        }
    }
}

/// The result for one node `v` on a cycle of the batch.
proof fn lemma_cycle_result<F: Fn(u64) -> bool>(
    batch: Seq<(u64, u64)>,
    sv: Seq<Seq<u64>>,
    key: Map<u64, usize>,
    upd: Map<u64, HashSet<u64>>,
    sets: Seq<ReachSet>,
    init: Seq<Map<u64, u64>>,
    upd_pre: Map<u64, HashSet<u64>>,
    old: Map<u64, (Map<u64, u64>, u64, u64)>,
    new_view: Map<u64, (Map<u64, u64>, u64, u64)>,
    time: u64,
    bound: u64,
    is_match: F,
    v: u64,
)
    requires
        multis_ok(upd, sets, init, upd_pre, sv, key),
        multis_start(upd_pre, init, sv, key, old),
        cycles_start(init, sv, old, time, bound, is_match),
        came_in(sets, init, batch.to_set(), key, 0, bound),
        components_exact(sv, batch.to_set()),
        forall|i: int, a: int, j: int, b: int|
            0 <= i < sv.len() && 0 <= a < sv[i].len() && 0 <= j < sv.len() && 0 <= b < sv[j].len()
                && #[trigger] sv[i][a] == #[trigger] sv[j][b] ==> i == j && a == b,
        forall|i: int, a: int| 0 <= i < sv.len() && 0 <= a < sv[i].len() ==> key.contains_key(#[trigger] sv[i][a]) && key[sv[i][a]] == i,
        forall|x: u64| #[trigger] key.contains_key(x) ==> {
            let i = key[x] as int;
            0 <= i < sv.len() && exists|a: int| 0 <= a < sv[i].len() && sv[i][a] == x
        },
        forall|x: u64| #[trigger] end_nodes(batch).contains(x) <==> key.contains_key(x),
        forall|u: u64, w: u64| #[trigger] batch.to_set().contains((u, w)) ==> key.contains_key(u) && key.contains_key(w),
        forall|w: u64| #[trigger] key.contains_key(w) ==> new_view.contains_key(w) && new_view[w] == sets[key[w] as int]@,
        init.len() == sv.len(),
        sets.len() == sv.len(),
        upd.contains_key(v),
        key.contains_key(v),
        in_batch_cycle(batch, v),
    ensures
        cycle_result(old, is_match, v, time, batch, new_view, bound, upd[v]@),
{
    reveal(multis_ok);
    reveal(multis_start);
    reveal(cycles_start);
    reveal(came_in);
    let j = key[v] as int;
    let a = choose|a: int| 0 <= a < sv[j].len() && sv[j][a] == v;
    let w0 = choose|w: u64| w != v && end_nodes(batch).contains(w) && #[trigger] mutually_reach(batch.to_set(), v, w);
    assert(key.contains_key(w0));
    let k0 = key[w0] as int;
    let b0 = choose|b: int| 0 <= b < sv[k0].len() && sv[k0][b] == w0;
    assert(k0 == j) by {
        reveal(components_exact);
        assert(mutually_reach(batch.to_set(), sv[j][a], sv[k0][b0]));
    }
    assert(a != b0);
    assert(sv[j].len() > 1);
    let members = sv[j];
    let bs = choose|bs: Seq<bool>|
        #![trigger cycle_start(old, sv[j], bs, time, bound)]
        bs.len() == sv[j].len() && (forall|k: int| 0 <= k < bs.len() ==> is_match.ensures((sv[j][k],), #[trigger] bs[k]))
            && init[j] == cycle_start(old, sv[j], bs, time, bound);
    let cyc = cycle_of(batch, v);
    assert forall|w: u64| members.to_set().contains(w) <==> cyc.contains(w) by {
        if members.to_set().contains(w) {
            let c = choose|c: int| 0 <= c < members.len() && members[c] == w;
            if w != v {
                assert(key.contains_key(w));
                assert(end_nodes(batch).contains(w));
                assert(mutually_reach(batch.to_set(), v, w)) by {
                    reveal(components_exact);
                    assert(mutually_reach(batch.to_set(), sv[j][a], sv[j][c]));
                }
            }
        }
        if cyc.contains(w) {
            if w == v {
                assert(members[a] == w);
            } else {
                assert(key.contains_key(w));
                let k = key[w] as int;
                let c = choose|c: int| 0 <= c < sv[k].len() && sv[k][c] == w;
                assert(k == j) by {
                    reveal(components_exact);
                    assert(mutually_reach(batch.to_set(), sv[j][a], sv[k][c]));
                }
                assert(members[c] == w);
            }
        }
    }
    assert(members.to_set() =~= cyc);
    assert(members.no_duplicates()) by {
        assert forall|p: int, q: int| 0 <= p < members.len() && 0 <= q < members.len() && p != q implies members[p] != members[q] by {
            if members[p] == members[q] {
                assert(sv[j][p] == sv[j][q]);
            }
        }
    }
    let start = cycle_start(old, members, bs, time, bound);
    let fin = new_view[v].0;
    assert(fin == sets[j]@.0);
    assert(start == init[j]);
    assert(grows(start, fin));
    assert forall|x: u64| #[trigger] fin.contains_key(x) implies (start.contains_key(x) && fin[x] == start[x]) || exists|u: u64, w: u64|
        #[trigger] batch.to_set().contains((u, w)) && cyc.contains(w) && !cyc.contains(u)
            && new_view[u].0.contains_key(x) && new_view[u].0[x] == fin[x] && fin[x] >= bound by {
        assert(sets[j]@.0.contains_key(x));
        if !(init[j].contains_key(x) && sets[j]@.0[x] == init[j][x]) {
            let (u, w) = choose|u: u64, w: u64| #[trigger] batch.to_set().contains((u, w)) && key[w] == j && key[u] != j
                && key[u] >= 0 && sets[key[u] as int]@.0.contains_key(x) && sets[key[u] as int]@.0[x] == sets[j]@.0[x]
                && sets[j]@.0[x] >= bound;
            assert(key.contains_key(w) && key.contains_key(u));
            let cw = choose|c: int| 0 <= c < sv[key[w] as int].len() && sv[key[w] as int][c] == w;
            assert(members[cw] == w);
            assert(members.to_set().contains(w));
            if cyc.contains(u) {
                assert(members.to_set().contains(u));
                let cu = choose|c: int| 0 <= c < members.len() && members[c] == u;
                assert(sv[j][cu] == u);
            }
            assert(new_view[u] == sets[key[u] as int]@);
        }
    }
}

/// A batch keeps every recorded time at most `cap` when its time is, and keeps every node
/// that matches in its own set.
proof fn lemma_batch_keeps<F: Fn(u64) -> bool>(
    batch: Seq<(u64, u64)>,
    sv: Seq<Seq<u64>>,
    key: Map<u64, usize>,
    upd: Map<u64, HashSet<u64>>,
    sets: Seq<ReachSet>,
    init: Seq<Map<u64, u64>>,
    upd_pre: Map<u64, HashSet<u64>>,
    old: Map<u64, (Map<u64, u64>, u64, u64)>,
    new_view: Map<u64, (Map<u64, u64>, u64, u64)>,
    time: u64,
    bound: u64,
    is_match: F,
)
    requires
        singles_ok(upd, sets, init, sv, key),
        multis_ok(upd, sets, init, upd_pre, sv, key),
        singles_start(init, sv, old, time, is_match),
        cycles_start(init, sv, old, time, bound, is_match),
        came_in(sets, init, batch.to_set(), key, 0, bound),
        forall|i: int, a: int| 0 <= i < sv.len() && 0 <= a < sv[i].len() ==> key.contains_key(#[trigger] sv[i][a]) && key[sv[i][a]] == i,
        forall|x: u64| #[trigger] key.contains_key(x) ==> {
            let i = key[x] as int;
            0 <= i < sv.len() && exists|a: int| 0 <= a < sv[i].len() && sv[i][a] == x
        },
        forall|x: u64| #[trigger] end_nodes(batch).contains(x) <==> key.contains_key(x),
        forall|u: u64, w: u64| #[trigger] batch.to_set().contains((u, w)) ==> key.contains_key(u) && key.contains_key(w)
            && key[w] <= key[u],
        forall|w: u64| #[trigger] key.contains_key(w) ==> new_view.contains_key(w) && new_view[w] == sets[key[w] as int]@,
        new_view.dom() == old.dom() + end_nodes(batch),
        forall|k: u64| #[trigger] old.contains_key(k) && !end_nodes(batch).contains(k) ==> new_view[k] == old[k],
        init.len() == sv.len(),
        sets.len() == sv.len(),
        forall|j: int| 0 <= j < sv.len() ==> #[trigger] sv[j].len() > 0,
    ensures
        forall|cap: u64| capped(old, cap) && time <= cap ==> #[trigger] capped(new_view, cap),
        forall|m: spec_fn(u64) -> bool| answers_as(is_match, m) && self_held(old, m) ==> #[trigger] self_held(new_view, m),
{
    reveal(singles_ok);
    reveal(multis_ok);
    reveal(singles_start);
    reveal(cycles_start);
    assert forall|cap: u64| capped(old, cap) && time <= cap implies #[trigger] capped(new_view, cap) by {
        assert forall|j: int, x: u64| 0 <= j < init.len() && #[trigger] init[j].contains_key(x) implies init[j][x] <= cap by {
            assert(sv[j].len() > 0);
            if sv[j].len() == 1 {
                let b = choose|b: bool|
                    #![trigger start_times(old, sv[j][0], time, b)]
                    (!old.contains_key(sv[j][0]) ==> is_match.ensures((sv[j][0],), b)) && init[j] == start_times(old, sv[j][0], time, b);
                let v = sv[j][0];
                if old.contains_key(v) && x != v {
                    assert(old[v].0.contains_key(x));
                }
            } else {
                let bs = choose|bs: Seq<bool>|
                    #![trigger cycle_start(old, sv[j], bs, time, bound)]
                    bs.len() == sv[j].len() && (forall|k: int| 0 <= k < bs.len() ==> is_match.ensures((sv[j][k],), #[trigger] bs[k]))
                        && init[j] == cycle_start(old, sv[j], bs, time, bound);
                let ms = member_sets(old, sv[j]);
                lemma_member_sets_capped(old, sv[j], cap);
                lemma_merged_capped(ms, bound, cap);
                lemma_with_matches(merged_times(ms, bound), sv[j], bs, time);
                if merged_times(ms, bound).contains_key(x) {
                    assert(merged_times(ms, bound)[x] <= cap);
                }
            }
        }
        assert forall|k: u64, x: u64| new_view.contains_key(k) && #[trigger] new_view[k].0.contains_key(x) implies new_view[k].0[x] <= cap by {
            if end_nodes(batch).contains(k) {
                let j = key[k] as int;
                lemma_sets_capped(sets, init, batch.to_set(), key, bound, cap, j);
                assert(new_view[k] == sets[j]@);
            } else {
                assert(old.contains_key(k));
                assert(new_view[k] == old[k]);
                assert(old[k].0.contains_key(x));
            }
        }
    }
    assert forall|m: spec_fn(u64) -> bool| answers_as(is_match, m) && self_held(old, m) implies #[trigger] self_held(new_view, m) by {
        assert forall|k: u64| #[trigger] new_view.contains_key(k) && m(k) implies new_view[k].0.contains_key(k) by {
            if end_nodes(batch).contains(k) {
                let j = key[k] as int;
                let a = choose|a: int| 0 <= a < sv[j].len() && sv[j][a] == k;
                assert(new_view[k] == sets[j]@);
                if sv[j].len() == 1 {
                    assert(sv[j][0] == k);
                    let b = choose|b: bool|
                        #![trigger start_times(old, sv[j][0], time, b)]
                        (!old.contains_key(sv[j][0]) ==> is_match.ensures((sv[j][0],), b)) && init[j] == start_times(old, sv[j][0], time, b);
                    if old.contains_key(k) {
                        assert(old[k].0.contains_key(k));
                    } else {
                        assert(b == m(k));
                    }
                    assert(init[j].contains_key(k));
                    assert(grows(init[j], sets[j]@.0));
                } else {
                    let bs = choose|bs: Seq<bool>|
                        #![trigger cycle_start(old, sv[j], bs, time, bound)]
                        bs.len() == sv[j].len() && (forall|q: int| 0 <= q < bs.len() ==> is_match.ensures((sv[j][q],), #[trigger] bs[q]))
                            && init[j] == cycle_start(old, sv[j], bs, time, bound);
                    assert(is_match.ensures((sv[j][a],), bs[a]));
                    assert(bs[a] == m(k));
                    lemma_with_matches(merged_times(member_sets(old, sv[j]), bound), sv[j], bs, time);
                    assert(init[j].contains_key(k));
                    assert(grows(init[j], sets[j]@.0));
                }
            } else {
                assert(old.contains_key(k));
                assert(new_view[k] == old[k]);
            }
        }
    }
}

/// What `add_batch` records for each node: when it shares no cycle of the batch, exactly the
/// nodes its final set gained over the set it started from; otherwise every node but itself
/// that is newer in its final set than in its old one is recorded for it or for another node
/// of its cycle.
proof fn lemma_batch_results<F: Fn(u64) -> bool>(
    batch: Seq<(u64, u64)>,
    sccs: Seq<Vec<u64>>,
    key: Map<u64, usize>,
    upd: Map<u64, HashSet<u64>>,
    sets: Seq<ReachSet>,
    sets_pre: Seq<ReachSet>,
    upd_pre: Map<u64, HashSet<u64>>,
    old: Map<u64, (Map<u64, u64>, u64, u64)>,
    new_view: Map<u64, (Map<u64, u64>, u64, u64)>,
    time: u64,
    bound: u64,
    is_match: F,
)
    requires
        singles_ok(upd, sets, sets_pre.map_values(|r: ReachSet| r@.0), sccs.map_values(|c: Vec<u64>| c@), key),
        came_in(sets, sets_pre.map_values(|r: ReachSet| r@.0), batch.to_set(), key, 0, bound),
        cycles_start(sets_pre.map_values(|r: ReachSet| r@.0), sccs.map_values(|c: Vec<u64>| c@), old, time, bound, is_match),
        multis_ok(upd, sets, sets_pre.map_values(|r: ReachSet| r@.0), upd_pre, sccs.map_values(|c: Vec<u64>| c@), key),
        singles_start(sets_pre.map_values(|r: ReachSet| r@.0), sccs.map_values(|c: Vec<u64>| c@), old, time, is_match),
        multis_start(upd_pre, sets_pre.map_values(|r: ReachSet| r@.0), sccs.map_values(|c: Vec<u64>| c@), key, old),
        components_exact(sccs.map_values(|c: Vec<u64>| c@), batch.to_set()),
        forall|i: int, a: int, j: int, b: int|
            0 <= i < sccs.len() && 0 <= a < sccs[i]@.len() && 0 <= j < sccs.len() && 0 <= b < sccs[j]@.len()
                && #[trigger] sccs[i]@[a] == #[trigger] sccs[j]@[b] ==> i == j && a == b,
        forall|i: int, a: int| 0 <= i < sccs.len() && 0 <= a < sccs[i]@.len()
            ==> key.contains_key(#[trigger] sccs[i]@[a]) && key[sccs[i]@[a]] == i,
        forall|x: u64| #[trigger] key.contains_key(x) ==> {
            let i = key[x] as int;
            0 <= i < sccs.len() && exists|a: int| 0 <= a < sccs[i]@.len() && sccs[i]@[a] == x
        },
        forall|x: u64| #[trigger] end_nodes(batch).contains(x) <==> key.contains_key(x),
        forall|v: u64| #[trigger] upd.contains_key(v) ==> key.contains_key(v),
        forall|v: u64| #[trigger] key.contains_key(v) ==> new_view.contains_key(v) && new_view[v] == sets[key[v] as int]@,
        sets.len() == sccs.len(),
        sets_pre.len() == sccs.len(),
        forall|u: u64, w: u64| #[trigger] batch.to_set().contains((u, w)) ==> key.contains_key(u) && key.contains_key(w)
            && key[w] <= key[u],
        new_view.dom() == old.dom() + end_nodes(batch),
        forall|k: u64| #[trigger] old.contains_key(k) && !end_nodes(batch).contains(k) ==> new_view[k] == old[k],
        forall|i: int| 0 <= i < sccs.len() ==> #[trigger] sccs[i]@.len() > 0,
    ensures
        forall|cap: u64| capped(old, cap) && time <= cap ==> #[trigger] capped(new_view, cap),
        forall|m: spec_fn(u64) -> bool| answers_as(is_match, m) && self_held(old, m) ==> #[trigger] self_held(new_view, m),
        forall|v: u64| #[trigger] upd.contains_key(v) && !in_batch_cycle(batch, v) ==> alone_result(
            old,
            is_match,
            v,
            time,
            batch,
            new_view,
            bound,
            upd[v]@,
        ),
        forall|v: u64, x: u64| #[trigger] upd.contains_key(v) && in_batch_cycle(batch, v)
            && #[trigger] newer_ids(new_view[v].0, old_times(old, v)).contains(x) && x != v
            ==> upd[v]@.contains(x) || exists|w: u64| #[trigger] mutually_reach(batch.to_set(), v, w) && upd.contains_key(w)
                && upd[w]@.contains(x),
        forall|v: u64| #[trigger] upd.contains_key(v) && in_batch_cycle(batch, v) ==> cycle_result(
            old,
            is_match,
            v,
            time,
            batch,
            new_view,
            bound,
            upd[v]@,
        ),
        forall|v: u64| #[trigger] end_nodes(batch).contains(v) && !in_batch_cycle(batch, v) && !upd.contains_key(v)
            ==> untouched_result(old, is_match, v, time, new_view[v].0),
{
    let sv = sccs.map_values(|c: Vec<u64>| c@);
    let init = sets_pre.map_values(|r: ReachSet| r@.0);
    assert forall|i: int, a: int, j: int, b: int|
        0 <= i < sv.len() && 0 <= a < sv[i].len() && 0 <= j < sv.len() && 0 <= b < sv[j].len()
            && #[trigger] sv[i][a] == #[trigger] sv[j][b] implies i == j && a == b by {
        assert(sv[i][a] == sccs[i]@[a] && sv[j][b] == sccs[j]@[b]);
    }
    assert forall|i: int, a: int| 0 <= i < sv.len() && 0 <= a < sv[i].len()
        implies key.contains_key(#[trigger] sv[i][a]) && key[sv[i][a]] == i by {
        assert(sv[i][a] == sccs[i]@[a]);
    }
    assert forall|x: u64| #[trigger] key.contains_key(x) implies {
        let i = key[x] as int;
        0 <= i < sv.len() && exists|a: int| 0 <= a < sv[i].len() && sv[i][a] == x
    } by {
        let i = key[x] as int;
        let a = choose|a: int| 0 <= a < sccs[i]@.len() && sccs[i]@[a] == x;
        assert(sv[i][a] == x);
    }
    assert forall|u: u64, w: u64| #[trigger] batch.to_set().contains((u, w)) implies key.contains_key(u) && key.contains_key(w) by {
        let e = choose|e: int| 0 <= e < batch.len() && batch[e] == (u, w);
        assert(end_nodes(batch).contains(u) && end_nodes(batch).contains(w));
    }
    lemma_single_results(batch, sv, key, upd, sets, init, old, new_view, time, bound, is_match);
    assert forall|j: int| 0 <= j < sv.len() implies #[trigger] sv[j].len() > 0 by {
        assert(sv[j] == sccs[j]@);
    }
    lemma_batch_keeps(batch, sv, key, upd, sets, init, upd_pre, old, new_view, time, bound, is_match);
    assert forall|v: u64| #[trigger] upd.contains_key(v) && in_batch_cycle(batch, v) implies cycle_result(
        old,
        is_match,
        v,
        time,
        batch,
        new_view,
        bound,
        upd[v]@,
    ) by {
        lemma_cycle_result(batch, sv, key, upd, sets, init, upd_pre, old, new_view, time, bound, is_match, v);
    }
    reveal(multis_ok);
    reveal(multis_start);
    assert forall|v: u64, x: u64| #[trigger] upd.contains_key(v) && in_batch_cycle(batch, v)
        && #[trigger] newer_ids(new_view[v].0, old_times(old, v)).contains(x) && x != v
        implies upd[v]@.contains(x) || exists|w: u64| #[trigger] mutually_reach(batch.to_set(), v, w) && upd.contains_key(w)
            && upd[w]@.contains(x) by {
        let j = key[v] as int;
        let a = choose|a: int| 0 <= a < sv[j].len() && sv[j][a] == v;
        let w0 = choose|w: u64| w != v && end_nodes(batch).contains(w) && #[trigger] mutually_reach(batch.to_set(), v, w);
        assert(key.contains_key(w0));
        let k = key[w0] as int;
        let b = choose|b: int| 0 <= b < sv[k].len() && sv[k][b] == w0;
        assert(k == j) by {
            reveal(components_exact);
            assert(mutually_reach(batch.to_set(), sv[j][a], sv[k][b]));
        }
        assert(a != b);
        assert(sv[j].len() > 1);
        let ot = old_times(old, v);
        let fin = new_view[v].0;
        assert(fin == sets[j]@.0);
        if newer_ids(init[j], ot).contains(x) {
            assert(upd_pre[v]@.contains(x));
            assert(upd_pre[v]@.subset_of(upd[v]@));
        } else {
            assert(newer_ids(sets[j]@.0, init[j]).contains(x));
            let w = choose|w: u64| key.contains_key(w) && key[w] == j && upd.contains_key(w) && #[trigger] upd[w]@.contains(x);
            if w != v {
                let c = choose|c: int| 0 <= c < sv[j].len() && sv[j][c] == w;
                assert(mutually_reach(batch.to_set(), v, w)) by {
                    reveal(components_exact);
                    assert(mutually_reach(batch.to_set(), sv[j][a], sv[j][c]));
                }
            }
        }
    }
}

/// Unions the component sets along the arcs of the batch graph `g`: the components are taken
/// from the last to the first, so that a set is complete before it flows on, and each arc
/// between two components unions the set of its source into that of its target, once per
/// pair in a row. The nodes that a union brings into a set are recorded for the target.
#[verifier::rlimit(60)]
#[verifier::spinoff_prover]
fn union_along(
    sets: &mut Vec<ReachSet>,
    sccs: &Vec<Vec<u64>>,
    g: &GraphMap<u64, (), Directed>,
    key_of: &HashMap<u64, usize>,
    updated: &mut HashMap<u64, HashSet<u64>>,
    time_bound: u64,
    Ghost(src_ok): Ghost<spec_fn(u64, u64) -> bool>,
)
    requires
        components_exact(sccs@.map_values(|c: Vec<u64>| c@), graph_map_arcs(*g)),
        forall|j: int, x: u64| 0 <= j < sccs@.len() && #[trigger] old(sets)@[j]@.0.contains_key(x) ==> exists|c: int|
            0 <= c < sccs@[j]@.len() && src_ok(x, #[trigger] sccs@[j]@[c]),
        old(sets)@.len() == sccs@.len(),
        forall|i: int, a: int| 0 <= i < sccs@.len() && 0 <= a < sccs@[i]@.len()
            ==> key_of@.contains_key(#[trigger] sccs@[i]@[a]) && key_of@[sccs@[i]@[a]] == i,
        forall|x: u64| #[trigger] key_of@.contains_key(x) ==> {
            let i = key_of@[x] as int;
            0 <= i < sccs@.len() && exists|a: int| 0 <= a < sccs@[i]@.len() && sccs@[i]@[a] == x
        },
        forall|u: u64, v: u64| #[trigger] graph_map_arcs(*g).contains((u, v))
            ==> key_of@.contains_key(u) && key_of@.contains_key(v) && key_of@[v] <= key_of@[u],
        forall|v: u64| #[trigger] old(updated)@.contains_key(v) ==> key_of@.contains_key(v)
            && old(updated)@[v]@.subset_of(old(sets)@[key_of@[v] as int]@.0.dom()),
        forall|x: u64| #[trigger] key_of@.contains_key(x) && sccs@[key_of@[x] as int]@.len() > 1 ==> old(updated)@.contains_key(x),
        forall|v: u64| #[trigger] old(updated)@.contains_key(v) ==> sccs@[key_of@[v] as int]@.len() > 1,
    ensures
        final(sets)@.len() == sccs@.len(),
        singles_ok(
            final(updated)@,
            final(sets)@,
            old(sets)@.map_values(|r: ReachSet| r@.0),
            sccs@.map_values(|c: Vec<u64>| c@),
            key_of@,
        ),
        multis_ok(
            final(updated)@,
            final(sets)@,
            old(sets)@.map_values(|r: ReachSet| r@.0),
            old(updated)@,
            sccs@.map_values(|c: Vec<u64>| c@),
            key_of@,
        ),
        came_in(final(sets)@, old(sets)@.map_values(|r: ReachSet| r@.0), graph_map_arcs(*g), key_of@, 0, time_bound),
        forall|u: u64, v: u64| #[trigger] graph_map_arcs(*g).contains((u, v)) && key_of@[u] != key_of@[v]
            ==> flows_into(final(sets)@[key_of@[u] as int]@, final(sets)@[key_of@[v] as int]@, time_bound),
        forall|v: u64| #[trigger] final(updated)@.contains_key(v) ==> key_of@.contains_key(v)
            && final(updated)@[v]@.subset_of(final(sets)@[key_of@[v] as int]@.0.dom()),
        forall|v: u64| #[trigger] final(updated)@.contains_key(v) <==> old(updated)@.contains_key(v) || exists|w: u64|
            #[trigger] graph_map_arcs(*g).contains((w, v)) && key_of@[w] != key_of@[v],
        forall|j: int, x: u64| 0 <= j < sccs@.len() && #[trigger] final(sets)@[j]@.0.contains_key(x) ==> exists|w: u64, c: int|
            0 <= c < sccs@[j]@.len() && #[trigger] reaches(graph_map_arcs(*g), w, sccs@[j]@[c]) && src_ok(x, w),
{
    let n = sets.len();
    let mut last_union: Vec<usize> = Vec::new();
    let mut k: usize = 0;
    while k < n
        invariant
            k <= n,
            last_union@.len() == k,
            forall|j: int| 0 <= j < k ==> #[trigger] last_union@[j] == usize::MAX,
        decreases n - k,
    {
        last_union.push(usize::MAX);
        k += 1;
    }
    let ghost arcs = graph_map_arcs(*g);
    let ghost upd_init = updated@;
    let ghost sv = sccs@.map_values(|c: Vec<u64>| c@);
    let ghost init = sets@.map_values(|r: ReachSet| r@.0);
    let ghost init_upd = updated@;
    proof {
        assert forall|j: int, x: u64| 0 <= j < n && #[trigger] sets@[j]@.0.contains_key(x) implies exists|w: u64, c: int|
            0 <= c < sccs@[j]@.len() && #[trigger] reaches(arcs, w, sccs@[j]@[c]) && src_ok(x, w) by {
            let c = choose|c: int| 0 <= c < sccs@[j]@.len() && src_ok(x, #[trigger] sccs@[j]@[c]);
            lemma_reaches_self(arcs, sccs@[j]@[c]);
        }
        assert forall|v: u64| #[trigger] key_of@.contains_key(v) && sv[key_of@[v] as int].len() == 1 implies {
            let j = key_of@[v] as int;
            &&& grows(init[j], sets@[j]@.0)
            &&& (updated@.contains_key(v) ==> updated@[v]@ == newer_ids(sets@[j]@.0, init[j]))
            &&& (!updated@.contains_key(v) ==> sets@[j]@.0 == init[j])
        } by {
            let j = key_of@[v] as int;
            assert(sv[j] == sccs@[j]@);
            assert(init[j] == sets@[j]@.0);
            assert forall|x: u64| #[trigger] init[j].contains_key(x) implies sets@[j]@.0.contains_key(x) && init[j][x] <= sets@[j]@.0[x] by {}
        }
        reveal(singles_ok);
        assert forall|v: u64| #[trigger] key_of@.contains_key(v) && sv[key_of@[v] as int].len() > 1 implies {
            &&& updated@.contains_key(v) && init_upd.contains_key(v)
            &&& init_upd[v]@.subset_of(updated@[v]@)
            &&& updated@[v]@.subset_of(init_upd[v]@ + newer_ids(sets@[key_of@[v] as int]@.0, init[key_of@[v] as int]))
            &&& grows(init[key_of@[v] as int], sets@[key_of@[v] as int]@.0)
        } by {
            let j = key_of@[v] as int;
            assert(sv[j] == sccs@[j]@);
            assert(init[j] == sets@[j]@.0);
            assert forall|x: u64| #[trigger] init[j].contains_key(x) implies sets@[j]@.0.contains_key(x) && init[j][x] <= sets@[j]@.0[x] by {}
        }
        assert forall|j: int, x: u64| 0 <= j < sv.len() && sv[j].len() > 1 && #[trigger] newer_ids(sets@[j]@.0, init[j]).contains(x)
            implies exists|w: u64| key_of@.contains_key(w) && key_of@[w] == j && updated@.contains_key(w) && #[trigger] updated@[w]@.contains(x) by {
            assert(init[j] == sets@[j]@.0);
        }
        reveal(multis_ok);
        assert(came_in(sets@, init, arcs, key_of@, n as int, time_bound)) by {
            reveal(came_in);
        }
    }
    let mut r: usize = n;
    while r > 0
        invariant
            sets@.len() == n,
            n == sccs@.len(),
            last_union@.len() == n,
            r <= n,
            arcs == graph_map_arcs(*g),
            forall|i: int, a: int| 0 <= i < sccs@.len() && 0 <= a < sccs@[i]@.len()
                ==> key_of@.contains_key(#[trigger] sccs@[i]@[a]) && key_of@[sccs@[i]@[a]] == i,
            forall|x: u64| #[trigger] key_of@.contains_key(x) ==> {
                let i = key_of@[x] as int;
                0 <= i < sccs@.len() && exists|a: int| 0 <= a < sccs@[i]@.len() && sccs@[i]@[a] == x
            },
            forall|u: u64, v: u64| #[trigger] arcs.contains((u, v))
                ==> key_of@.contains_key(u) && key_of@.contains_key(v) && key_of@[v] <= key_of@[u],
            forall|u: u64, v: u64| #[trigger] arcs.contains((u, v)) && key_of@[u] >= r && key_of@[u] != key_of@[v]
                ==> flows_into(sets@[key_of@[u] as int]@, sets@[key_of@[v] as int]@, time_bound),
            forall|j: int| 0 <= j < n && #[trigger] last_union@[j] != usize::MAX
                ==> r <= last_union@[j] < n && flows_into(sets@[last_union@[j] as int]@, sets@[j]@, time_bound),
            forall|v: u64| #[trigger] updated@.contains_key(v) ==> key_of@.contains_key(v)
                && updated@[v]@.subset_of(sets@[key_of@[v] as int]@.0.dom()),
            forall|x: u64| #[trigger] key_of@.contains_key(x) && sccs@[key_of@[x] as int]@.len() > 1 ==> upd_init.contains_key(x),
            forall|v: u64| #[trigger] upd_init.contains_key(v) ==> updated@.contains_key(v),
            forall|x: u64| #[trigger] key_of@.contains_key(x) && last_union@[key_of@[x] as int] != usize::MAX ==> updated@.contains_key(x),
            forall|v: u64| #[trigger] updated@.contains_key(v) ==> upd_init.contains_key(v) || exists|w: u64|
                #[trigger] arcs.contains((w, v)) && key_of@[w] != key_of@[v],
            forall|x: u64, v: u64| #[trigger] arcs.contains((x, v)) && key_of@[x] >= r && key_of@[x] != key_of@[v] ==> updated@.contains_key(v),
            forall|j: int, x: u64| 0 <= j < n && #[trigger] sets@[j]@.0.contains_key(x) ==> exists|w: u64, c: int|
                0 <= c < sccs@[j]@.len() && #[trigger] reaches(arcs, w, sccs@[j]@[c]) && src_ok(x, w),
            sv == sccs@.map_values(|c: Vec<u64>| c@),
            singles_ok(updated@, sets@, init, sv, key_of@),
            multis_ok(updated@, sets@, init, init_upd, sv, key_of@),
            came_in(sets@, init, arcs, key_of@, r as int, time_bound),
            components_exact(sv, arcs),
            forall|i: int, a: int| 0 <= i < sccs@.len() && 0 <= a < sccs@[i]@.len()
                ==> key_of@.contains_key(#[trigger] sccs@[i]@[a]) && key_of@[sccs@[i]@[a]] == i,
        decreases r,
    {
        let i = r - 1;
        let scc = &sccs[i];
        proof {
            lemma_came_lower(sets@, init, arcs, key_of@, r as int, i as int, time_bound);
        }
        let mut a: usize = 0;
        while a < scc.len()
            invariant
                sets@.len() == n,
                n == sccs@.len(),
                last_union@.len() == n,
                i < n,
                i == r - 1,
                scc@ == sccs@[i as int]@,
                a <= scc@.len(),
                arcs == graph_map_arcs(*g),
                forall|i: int, a: int| 0 <= i < sccs@.len() && 0 <= a < sccs@[i]@.len()
                    ==> key_of@.contains_key(#[trigger] sccs@[i]@[a]) && key_of@[sccs@[i]@[a]] == i,
                forall|x: u64| #[trigger] key_of@.contains_key(x) ==> key_of@[x] < n,
                forall|u: u64, v: u64| #[trigger] arcs.contains((u, v))
                    ==> key_of@.contains_key(u) && key_of@.contains_key(v) && key_of@[v] <= key_of@[u],
                forall|u: u64, v: u64| #[trigger] arcs.contains((u, v)) && key_of@[u] > i && key_of@[u] != key_of@[v]
                    ==> flows_into(sets@[key_of@[u] as int]@, sets@[key_of@[v] as int]@, time_bound),
                forall|c: int, v: u64| 0 <= c < a && #[trigger] arcs.contains((scc@[c], v)) && key_of@[v] != i
                    ==> flows_into(sets@[i as int]@, sets@[key_of@[v] as int]@, time_bound),
                forall|j: int| 0 <= j < n && #[trigger] last_union@[j] != usize::MAX
                    ==> i <= last_union@[j] < n && flows_into(sets@[last_union@[j] as int]@, sets@[j]@, time_bound),
                forall|v: u64| #[trigger] updated@.contains_key(v) ==> key_of@.contains_key(v)
                    && updated@[v]@.subset_of(sets@[key_of@[v] as int]@.0.dom()),
                forall|x: u64| #[trigger] key_of@.contains_key(x) && sccs@[key_of@[x] as int]@.len() > 1 ==> upd_init.contains_key(x),
                forall|v: u64| #[trigger] upd_init.contains_key(v) ==> updated@.contains_key(v),
                forall|x: u64| #[trigger] key_of@.contains_key(x) && last_union@[key_of@[x] as int] != usize::MAX ==> updated@.contains_key(x),
                forall|v: u64| #[trigger] updated@.contains_key(v) ==> upd_init.contains_key(v) || exists|w: u64|
                    #[trigger] arcs.contains((w, v)) && key_of@[w] != key_of@[v],
                forall|x: u64, v: u64| #[trigger] arcs.contains((x, v)) && key_of@[x] > i && key_of@[x] != key_of@[v] ==> updated@.contains_key(v),
                forall|j: int, x: u64| 0 <= j < n && #[trigger] sets@[j]@.0.contains_key(x) ==> exists|w: u64, c: int|
                    0 <= c < sccs@[j]@.len() && #[trigger] reaches(arcs, w, sccs@[j]@[c]) && src_ok(x, w),
                sv == sccs@.map_values(|c: Vec<u64>| c@),
                singles_ok(updated@, sets@, init, sv, key_of@),
                multis_ok(updated@, sets@, init, init_upd, sv, key_of@),
                came_in(sets@, init, arcs, key_of@, i as int, time_bound),
                components_exact(sv, arcs),
                forall|c: int, v: u64| 0 <= c < a && #[trigger] arcs.contains((scc@[c], v)) && key_of@[v] != i ==> updated@.contains_key(v),
                forall|x: u64| #[trigger] key_of@.contains_key(x) ==> {
                    let j = key_of@[x] as int;
                    0 <= j < sccs@.len() && exists|c: int| 0 <= c < sccs@[j]@.len() && sccs@[j]@[c] == x
                },
            decreases scc@.len() - a,
        {
            let src = scc[a];
            proof {
                assert(key_of@[src] == i);
            }
            let succs = graph_map_successors(g, src);
            let mut b: usize = 0;
            while b < succs.len()
                invariant
                    sets@.len() == n,
                    n == sccs@.len(),
                    last_union@.len() == n,
                    i < n,
                    scc@ == sccs@[i as int]@,
                    a < scc@.len(),
                    src == scc@[a as int],
                    key_of@.contains_key(src) && key_of@[src] == i,
                    b <= succs@.len(),
                    succs@.to_set() == Set::new(|v: u64| arcs.contains((src, v))),
                    arcs == graph_map_arcs(*g),
                    forall|x: u64| #[trigger] key_of@.contains_key(x) ==> key_of@[x] < n,
                    forall|u: u64, v: u64| #[trigger] arcs.contains((u, v))
                        ==> key_of@.contains_key(u) && key_of@.contains_key(v) && key_of@[v] <= key_of@[u],
                    forall|u: u64, v: u64| #[trigger] arcs.contains((u, v)) && key_of@[u] > i && key_of@[u] != key_of@[v]
                        ==> flows_into(sets@[key_of@[u] as int]@, sets@[key_of@[v] as int]@, time_bound),
                    forall|c: int, v: u64| 0 <= c < a && #[trigger] arcs.contains((scc@[c], v)) && key_of@[v] != i
                        ==> flows_into(sets@[i as int]@, sets@[key_of@[v] as int]@, time_bound),
                    forall|d: int| 0 <= d < b && key_of@[#[trigger] succs@[d]] != i
                        ==> flows_into(sets@[i as int]@, sets@[key_of@[succs@[d]] as int]@, time_bound),
                    forall|j: int| 0 <= j < n && #[trigger] last_union@[j] != usize::MAX
                        ==> i <= last_union@[j] < n && flows_into(sets@[last_union@[j] as int]@, sets@[j]@, time_bound),
                    forall|v: u64| #[trigger] updated@.contains_key(v) ==> key_of@.contains_key(v)
                        && updated@[v]@.subset_of(sets@[key_of@[v] as int]@.0.dom()),
                    forall|x: u64| #[trigger] key_of@.contains_key(x) && sccs@[key_of@[x] as int]@.len() > 1 ==> upd_init.contains_key(x),
                    forall|v: u64| #[trigger] upd_init.contains_key(v) ==> updated@.contains_key(v),
                    forall|x: u64| #[trigger] key_of@.contains_key(x) && last_union@[key_of@[x] as int] != usize::MAX ==> updated@.contains_key(x),
                    forall|v: u64| #[trigger] updated@.contains_key(v) ==> upd_init.contains_key(v) || exists|w: u64|
                        #[trigger] arcs.contains((w, v)) && key_of@[w] != key_of@[v],
                    forall|x: u64, v: u64| #[trigger] arcs.contains((x, v)) && key_of@[x] > i && key_of@[x] != key_of@[v] ==> updated@.contains_key(v),
                    forall|c: int, v: u64| 0 <= c < a && #[trigger] arcs.contains((scc@[c], v)) && key_of@[v] != i ==> updated@.contains_key(v),
                    forall|d: int| 0 <= d < b && key_of@[#[trigger] succs@[d]] != i ==> updated@.contains_key(succs@[d]),
                    forall|j: int, x: u64| 0 <= j < n && #[trigger] sets@[j]@.0.contains_key(x) ==> exists|w: u64, c: int|
                        0 <= c < sccs@[j]@.len() && #[trigger] reaches(arcs, w, sccs@[j]@[c]) && src_ok(x, w),
                    sv == sccs@.map_values(|c: Vec<u64>| c@),
                    singles_ok(updated@, sets@, init, sv, key_of@),
                    multis_ok(updated@, sets@, init, init_upd, sv, key_of@),
                    came_in(sets@, init, arcs, key_of@, i as int, time_bound),
                    components_exact(sv, arcs),
                    forall|x: u64| #[trigger] key_of@.contains_key(x) ==> {
                        let j = key_of@[x] as int;
                        0 <= j < sccs@.len() && exists|c: int| 0 <= c < sccs@[j]@.len() && sccs@[j]@[c] == x
                    },
                decreases succs@.len() - b,
            {
                let dst = succs[b];
                proof {
                    assert(succs@.to_set().contains(dst));
                    assert(arcs.contains((src, dst)));
                }
                let dst_key = *key_of.get(&dst).unwrap();
                if dst_key != i && last_union[dst_key] != i {
                    let ghost sets0 = sets@;
                    let ghost last0 = last_union@;
                    last_union.set(dst_key, i);
                    let mut d = sets[dst_key].clone();
                    let diff = d.unioned_by(&sets[i], time_bound);
                    sets.set(dst_key, d);
                    let ghost upd0 = updated@;
                    record_updates(updated, dst, &diff, None);
                    proof {
                        assert forall|x: u64| #[trigger] key_of@.contains_key(x) implies {
                            let k = key_of@[x] as int;
                            0 <= k < sv.len() && k < sets0.len() && exists|a: int| 0 <= a < sv[k].len() && sv[k][a] == x
                        } by {
                            let k = key_of@[x] as int;
                            let c = choose|c: int| 0 <= c < sccs@[k]@.len() && sccs@[k]@[c] == x;
                            assert(sv[k] == sccs@[k]@);
                            assert(sv[k][c] == x);
                        }
                        assert forall|k: int| 0 <= k < sets0.len() && k != dst_key implies #[trigger] sets@[k] == sets0[k] by {}
                        lemma_singles_step(upd0, updated@, sets0, sets@, init, sv, key_of@, i as int, dst_key as int, dst, time_bound);
                        lemma_multis_step(upd0, updated@, sets0, sets@, init, init_upd, sv, key_of@, i as int, dst_key as int, dst, time_bound);
                        assert(dst_key < i);
                        lemma_came_step(sets0, sets@, init, arcs, key_of@, i as int, dst_key as int, src, dst, time_bound);
                        let grown = sets@[dst_key as int]@;
                        assert forall|x: u64| #[trigger] sets0[dst_key as int]@.0.contains_key(x) implies grown.0.contains_key(x) by {}
                        assert forall|j: int| 0 <= j < n && j != dst_key implies #[trigger] sets@[j] == sets0[j] by {}
                        assert forall|j: int, x: u64| 0 <= j < n && #[trigger] sets@[j]@.0.contains_key(x) implies exists|w: u64, c: int|
                            0 <= c < sccs@[j]@.len() && #[trigger] reaches(arcs, w, sccs@[j]@[c]) && src_ok(x, w) by {
                            if j != dst_key {
                                assert(sets@[j] == sets0[j]);
                                assert(sets0[j]@.0.contains_key(x));
                            } else if sets0[j]@.0.contains_key(x) {
                            } else {
                                assert(sets0[i as int]@.0.contains_key(x));
                                let (w, c) = choose|w: u64, c: int| 0 <= c < sccs@[i as int]@.len() && #[trigger] reaches(arcs, w, sccs@[i as int]@[c]) && src_ok(x, w);
                                assert(sv[i as int] == sccs@[i as int]@);
                                lemma_component_reaches(sv, arcs, i as int, c, a as int);
                                lemma_reaches_trans(arcs, w, sccs@[i as int]@[c], src);
                                lemma_reaches_arc(arcs, w, src, dst);
                                let c2 = choose|c2: int| 0 <= c2 < sccs@[j]@.len() && sccs@[j]@[c2] == dst;
                                assert(reaches(arcs, w, sccs@[j]@[c2]));
                            }
                        }
                        lemma_union_grows(sets0[dst_key as int]@.0, sets0[i as int]@.0, time_bound);
                        assert(flows_into(sets@[i as int]@, grown, time_bound)) by {
                            assert(sets@[i as int] == sets0[i as int]);
                            assert forall|x: u64| #[trigger] sets@[i as int]@.0.contains_key(x) && sets@[i as int]@.0[x] >= time_bound
                                implies grown.0.contains_key(x) && sets@[i as int]@.0[x] <= grown.0[x] by {
                                assert(sets0[i as int]@.0.contains_key(x));
                            }
                        }
                        assert forall|u: u64, v: u64| #[trigger] arcs.contains((u, v)) && key_of@[u] > i && key_of@[u] != key_of@[v]
                            implies flows_into(sets@[key_of@[u] as int]@, sets@[key_of@[v] as int]@, time_bound) by {
                            if key_of@[v] == dst_key {
                                lemma_flows_grow(sets0[key_of@[u] as int]@, sets0[dst_key as int]@, grown, time_bound);
                            }
                        }
                        assert forall|c: int, v: u64| 0 <= c < a && #[trigger] arcs.contains((scc@[c], v)) && key_of@[v] != i
                            implies flows_into(sets@[i as int]@, sets@[key_of@[v] as int]@, time_bound) by {
                            if key_of@[v] == dst_key {
                                lemma_flows_grow(sets0[i as int]@, sets0[dst_key as int]@, grown, time_bound);
                            }
                        }
                        assert forall|e: int| 0 <= e < b + 1 && key_of@[#[trigger] succs@[e]] != i
                            implies flows_into(sets@[i as int]@, sets@[key_of@[succs@[e]] as int]@, time_bound) by {
                            assert(succs@.to_set().contains(succs@[e]));
                            assert(arcs.contains((src, succs@[e])));
                            if e < b && key_of@[succs@[e]] == dst_key {
                                lemma_flows_grow(sets0[i as int]@, sets0[dst_key as int]@, grown, time_bound);
                            }
                        }
                        assert forall|j: int| 0 <= j < n && #[trigger] last_union@[j] != usize::MAX
                            implies i <= last_union@[j] < n && flows_into(sets@[last_union@[j] as int]@, sets@[j]@, time_bound) by {
                            if j != dst_key {
                                assert(last_union@[j] == last0[j]);
                                assert(last0[j] != dst_key);
                                if j == dst_key {
                                } else {
                                }
                            }
                        }
                        assert(updated@.contains_key(dst));
                        assert forall|x: u64| #[trigger] key_of@.contains_key(x) && last_union@[key_of@[x] as int] != usize::MAX
                            implies updated@.contains_key(x) by {
                            if key_of@[x] == dst_key && x != dst {
                                let j = dst_key as int;
                                let c1 = choose|c: int| 0 <= c < sccs@[j]@.len() && sccs@[j]@[c] == x;
                                let c2 = choose|c: int| 0 <= c < sccs@[j]@.len() && sccs@[j]@[c] == dst;
                                assert(c1 != c2);
                                assert(sccs@[key_of@[x] as int]@.len() > 1);
                                assert(upd_init.contains_key(x));
                            } else if key_of@[x] != dst_key {
                                assert(last_union@[key_of@[x] as int] == last0[key_of@[x] as int]);
                                assert(upd0.contains_key(x));
                            }
                        }
                        assert forall|v: u64| #[trigger] updated@.contains_key(v) implies upd_init.contains_key(v) || exists|w: u64|
                            #[trigger] arcs.contains((w, v)) && key_of@[w] != key_of@[v] by {
                            if v == dst {
                                assert(arcs.contains((src, dst)));
                            } else {
                                assert(upd0.contains_key(v));
                            }
                        }
                        assert forall|e: int| 0 <= e < b + 1 && key_of@[#[trigger] succs@[e]] != i implies updated@.contains_key(succs@[e]) by {
                            if e < b {
                                assert(upd0.contains_key(succs@[e]));
                            }
                        }
                        assert forall|v: u64| #[trigger] updated@.contains_key(v) implies key_of@.contains_key(v)
                            && updated@[v]@.subset_of(sets@[key_of@[v] as int]@.0.dom()) by {
                            if v == dst {
                                if upd0.contains_key(v) {
                                    assert(upd0[v]@.subset_of(sets0[dst_key as int]@.0.dom()));
                                }
                                assert forall|x: u64| diff@.to_set().contains(x) implies #[trigger] grown.0.dom().contains(x) by {}
                            } else {
                                assert(upd0.contains_key(v));
                                if key_of@[v] == dst_key {
                                    assert(upd0[v]@.subset_of(sets0[dst_key as int]@.0.dom()));
                                }
                            }
                        }
                    }
                } else {
                    proof {
                        if dst_key != i {
                            assert(last_union@[dst_key as int] == i);
                            assert(updated@.contains_key(dst));
                        }
                    }
                }
                b += 1;
            }
            proof {
                assert forall|c: int, v: u64| 0 <= c < a + 1 && #[trigger] arcs.contains((scc@[c], v)) && key_of@[v] != i
                    implies flows_into(sets@[i as int]@, sets@[key_of@[v] as int]@, time_bound) by {
                    if c == a {
                        assert(Set::new(|v: u64| arcs.contains((src, v))).contains(v));
                        assert(succs@.to_set().contains(v));
                        let d = choose|d: int| 0 <= d < succs@.len() && succs@[d] == v;
                        assert(key_of@[succs@[d]] != i);
                    }
                }
                assert forall|c: int, v: u64| 0 <= c < a + 1 && #[trigger] arcs.contains((scc@[c], v)) && key_of@[v] != i
                    implies updated@.contains_key(v) by {
                    if c == a {
                        assert(Set::new(|v: u64| arcs.contains((src, v))).contains(v));
                        assert(succs@.to_set().contains(v));
                        let d = choose|d: int| 0 <= d < succs@.len() && succs@[d] == v;
                        assert(key_of@[succs@[d]] != i);
                    }
                }
            }
            a += 1;
        }
        proof {
            assert forall|u: u64, v: u64| #[trigger] arcs.contains((u, v)) && key_of@[u] >= i && key_of@[u] != key_of@[v]
                implies flows_into(sets@[key_of@[u] as int]@, sets@[key_of@[v] as int]@, time_bound) by {
                if key_of@[u] == i {
                    assert(key_of@.contains_key(u));
                    let c = choose|c: int| 0 <= c < sccs@[i as int]@.len() && sccs@[i as int]@[c] == u;
                    assert(scc@[c] == u);
                    assert(arcs.contains((scc@[c], v)));
                }
            }
            assert forall|x: u64, v: u64| #[trigger] arcs.contains((x, v)) && key_of@[x] >= i && key_of@[x] != key_of@[v]
                implies updated@.contains_key(v) by {
                if key_of@[x] == i {
                    assert(key_of@.contains_key(x));
                    let c = choose|c: int| 0 <= c < sccs@[i as int]@.len() && sccs@[i as int]@[c] == x;
                    assert(scc@[c] == x);
                    assert(arcs.contains((scc@[c], v)));
                }
            }
        }
        r -= 1;
    }
}

/// Traces, as arcs stream in, the flows of a graph: paths whose every arc is newer than the one
/// before it.
#[derive(Debug)]
pub struct FlowTracer {
    /// For each node, the set of the nodes that can reach it.
    pub reach_sets: HashMap<u64, ReachSet>,
    /// How far back in time a flow may start.
    pub window_size: u64,
}

impl View for FlowTracer {
    /// The reach set of each node, by its view.
    type V = Map<u64, (Map<u64, u64>, u64, u64)>;

    open spec fn view(&self) -> Map<u64, (Map<u64, u64>, u64, u64)> {
        self.reach_sets@.map_values(|r: ReachSet| r@)
    }
}

impl FlowTracer {
    /// A tracer with no arc yet.
    pub fn new(window_size: u64) -> (res: Self)
        ensures
            res@ == Map::<u64, (Map<u64, u64>, u64, u64)>::empty(),
            res.window_size == window_size,
    {
        let reach_sets: HashMap<u64, ReachSet> = HashMap::new();
        let res = FlowTracer { reach_sets, window_size };
        assert(res@ =~= Map::<u64, (Map<u64, u64>, u64, u64)>::empty());
        res
    }

    /// Adds an arc from `src` to `dst` at `time`; `is_match` says which nodes match a
    /// signature. Returns the nodes that now reach `dst` anew, each once.
    pub fn add_arc(&mut self, src: u64, dst: u64, time: u64, is_match: impl Fn(u64) -> bool) -> (res: Vec<u64>)
        requires
            forall|x: u64| is_match.requires((x,)),
        ensures
            final(self).window_size == old(self).window_size,
            src == dst ==> final(self)@ == old(self)@ && res@.len() == 0,
            src != dst ==> exists|src_match: bool, dst_match: bool|
                is_match.ensures((src,), src_match) && is_match.ensures((dst,), dst_match)
                && arc_added(old(self)@, final(self)@, res@, src, dst, time, old(self).window_size, src_match, dst_match),
    {
        if src == dst {
            return Vec::new();
        }
        let src_match = is_match(src);
        let dst_match = is_match(dst);
        let time_bound = time.saturating_sub(self.window_size);
        let ghost old_view = self@;
        let ghost old_sets = self.reach_sets@;
        let mut dst_set = match self.reach_sets.remove(&dst) {
            Some(set) => set,
            None => ReachSet::new(dst, time, dst_match),
        };
        assert(dst_set@ == (if old_view.contains_key(dst) { old_view[dst] } else { fresh_set(dst, time, dst_match) }));
        dst_set.refresh_node(dst, time);
        let ghost mid_sets = self.reach_sets@;
        let diff = match self.reach_sets.remove(&src) {
            Some(mut src_set) => {
                assert(old_view.contains_key(src) && src_set@ == old_view[src]);
                src_set.refresh_node(src, time);
                let d = dst_set.unioned_by(&src_set, time_bound);
                self.reach_sets.insert(src, src_set);
                d
            },
            None => {
                assert(!old_view.contains_key(src));
                if src_match {
                    let _ = dst_set.update_or_insert(src, time, time_bound);
                    let mut d: Vec<u64> = Vec::new();
                    d.push(src);
                    d
                } else {
                    Vec::new()
                }
            },
        };
        self.reach_sets.insert(dst, dst_set);
        proof {
            let new_view = self@;
            if old_view.contains_key(src) {
                assert(new_view.dom() =~= old_view.dom().insert(dst));
                assert forall|k: u64| #[trigger] old_view.contains_key(k) && k != src && k != dst implies new_view[k] == old_view[k] by {
                    assert(self.reach_sets@[k] == old_sets[k]);
                }
            } else {
                assert(new_view =~= old_view.insert(dst, self.reach_sets@[dst]@));
            }
            assert(arc_added(old_view, new_view, diff@, src, dst, time, self.window_size, src_match, dst_match));
        }
        diff
    }

    /// Gives each component of a batch one reach set, in order. A component of several nodes
    /// merges their sets, takes in its matching nodes at `time`, and records for each of its
    /// nodes the other nodes that its set gains. A single node takes its own set out of the
    /// tracer, or a new one, refreshed at `time`. Every node is mapped to its component.
    fn component_sets<F: Fn(u64) -> bool>(
        &mut self,
        sccs: &Vec<Vec<u64>>,
        time: u64,
        time_bound: u64,
        is_match: &F,
        key_of: &mut HashMap<u64, usize>,
        updated: &mut HashMap<u64, HashSet<u64>>,
    ) -> (sets: Vec<ReachSet>)
        requires
            forall|x: u64| is_match.requires((x,)),
            old(key_of)@ == Map::<u64, usize>::empty(),
            old(updated)@ == Map::<u64, HashSet<u64>>::empty(),
            forall|i: int| 0 <= i < sccs@.len() ==> #[trigger] sccs@[i]@.len() > 0,
            forall|i: int, a: int, j: int, b: int|
                0 <= i < sccs@.len() && 0 <= a < sccs@[i]@.len() && 0 <= j < sccs@.len() && 0 <= b < sccs@[j]@.len()
                    && #[trigger] sccs@[i]@[a] == #[trigger] sccs@[j]@[b] ==> i == j && a == b,
        ensures
            sets@.len() == sccs@.len(),
            final(self).window_size == old(self).window_size,
            forall|i: int, a: int| 0 <= i < sccs@.len() && 0 <= a < sccs@[i]@.len()
                ==> final(key_of)@.contains_key(#[trigger] sccs@[i]@[a]) && final(key_of)@[sccs@[i]@[a]] == i,
            forall|x: u64| #[trigger] final(key_of)@.contains_key(x) ==> {
                let i = final(key_of)@[x] as int;
                0 <= i < sccs@.len() && exists|a: int| 0 <= a < sccs@[i]@.len() && sccs@[i]@[a] == x
            },
            forall|x: u64| !final(key_of)@.contains_key(x) ==> #[trigger] final(self).reach_sets@.contains_key(x) == old(self).reach_sets@.contains_key(x),
            forall|x: u64| !final(key_of)@.contains_key(x) && #[trigger] final(self).reach_sets@.contains_key(x)
                ==> final(self).reach_sets@[x] == old(self).reach_sets@[x],
            forall|v: u64| #[trigger] final(updated)@.contains_key(v) ==> final(key_of)@.contains_key(v)
                && final(updated)@[v]@.subset_of(sets@[final(key_of)@[v] as int]@.0.dom()),
            forall|v: u64| #[trigger] final(updated)@.contains_key(v) <==> final(key_of)@.contains_key(v)
                && sccs@[final(key_of)@[v] as int]@.len() > 1,
            forall|j: int, x: u64| 0 <= j < sccs@.len() && #[trigger] sets@[j]@.0.contains_key(x) ==> exists|c: int|
                0 <= c < sccs@[j]@.len() && sourced_at(old(self)@, is_match, x, #[trigger] sccs@[j]@[c]),
            singles_start(sets@.map_values(|r: ReachSet| r@.0), sccs@.map_values(|c: Vec<u64>| c@), old(self)@, time, is_match),
            multis_start(
                final(updated)@,
                sets@.map_values(|r: ReachSet| r@.0),
                sccs@.map_values(|c: Vec<u64>| c@),
                final(key_of)@,
                old(self)@,
            ),
            cycles_start(sets@.map_values(|r: ReachSet| r@.0), sccs@.map_values(|c: Vec<u64>| c@), old(self)@, time, time_bound, is_match),
    {
        let ghost old_view = self@;
        let mut sets: Vec<ReachSet> = Vec::new();
        let mut i: usize = 0;
        while i < sccs.len()
            invariant
                forall|x: u64| is_match.requires((x,)),
                forall|i: int| 0 <= i < sccs@.len() ==> #[trigger] sccs@[i]@.len() > 0,
                forall|i: int, a: int, j: int, b: int|
                    0 <= i < sccs@.len() && 0 <= a < sccs@[i]@.len() && 0 <= j < sccs@.len() && 0 <= b < sccs@[j]@.len()
                        && #[trigger] sccs@[i]@[a] == #[trigger] sccs@[j]@[b] ==> i == j && a == b,
                i <= sccs@.len(),
                sets@.len() == i,
                self.window_size == old(self).window_size,
                forall|j: int, a: int| 0 <= j < i && 0 <= a < sccs@[j]@.len()
                    ==> key_of@.contains_key(#[trigger] sccs@[j]@[a]) && key_of@[sccs@[j]@[a]] == j,
                forall|x: u64| #[trigger] key_of@.contains_key(x) ==> {
                    let j = key_of@[x] as int;
                    0 <= j < i && exists|a: int| 0 <= a < sccs@[j]@.len() && sccs@[j]@[a] == x
                },
                forall|x: u64| !key_of@.contains_key(x) ==> #[trigger] self.reach_sets@.contains_key(x) == old(self).reach_sets@.contains_key(x),
                forall|x: u64| !key_of@.contains_key(x) && #[trigger] self.reach_sets@.contains_key(x)
                    ==> self.reach_sets@[x] == old(self).reach_sets@[x],
                forall|v: u64| #[trigger] updated@.contains_key(v) ==> key_of@.contains_key(v)
                    && updated@[v]@.subset_of(sets@[key_of@[v] as int]@.0.dom()),
                forall|v: u64| #[trigger] updated@.contains_key(v) <==> key_of@.contains_key(v)
                    && sccs@[key_of@[v] as int]@.len() > 1,
                forall|v: u64| #[trigger] updated@.contains_key(v) ==> updated@[v]@ == newer_ids(
                    sets@[key_of@[v] as int]@.0,
                    old_times(old_view, v),
                ).remove(v),
                old_view == old(self)@,
                forall|j: int| 0 <= j < i && #[trigger] sccs@[j]@.len() > 1 ==> exists|bs: Seq<bool>|
                    #![trigger cycle_start(old_view, sccs@[j]@, bs, time, time_bound)]
                    bs.len() == sccs@[j]@.len() && (forall|k: int| 0 <= k < bs.len() ==> is_match.ensures((sccs@[j]@[k],), #[trigger] bs[k]))
                        && sets@[j]@.0 == cycle_start(old_view, sccs@[j]@, bs, time, time_bound),
                forall|j: int| 0 <= j < i && #[trigger] sccs@[j]@.len() == 1 ==> exists|b: bool|
                    #![trigger start_times(old_view, sccs@[j]@[0], time, b)]
                    (!old_view.contains_key(sccs@[j]@[0]) ==> is_match.ensures((sccs@[j]@[0],), b))
                    && sets@[j]@.0 == start_times(old_view, sccs@[j]@[0], time, b),
                forall|j: int, x: u64| 0 <= j < i && #[trigger] sets@[j]@.0.contains_key(x) ==> exists|c: int|
                    0 <= c < sccs@[j]@.len() && sourced_at(old_view, is_match, x, #[trigger] sccs@[j]@[c]),
            decreases sccs@.len() - i,
        {
            let scc = &sccs[i];
            let ghost key0 = key_of@;
            let ghost sets0 = sets@;
            let ghost rs0 = self.reach_sets@;
            let ghost upd0 = updated@;
            proof {
                assert(scc@.len() > 0);
                assert forall|a: int| 0 <= a < scc@.len() implies !key0.contains_key(#[trigger] scc@[a]) by {
                    if key0.contains_key(scc@[a]) {
                        let j = key0[scc@[a]] as int;
                        let b = choose|b: int| 0 <= b < sccs@[j]@.len() && sccs@[j]@[b] == scc@[a];
                        assert(sccs@[j]@[b] == sccs@[i as int]@[a]);
                    }
                }
            }
            if scc.len() > 1 {
                proof {
                    assert forall|b: int| 0 <= b < scc@.len() implies (rs0.contains_key(#[trigger] scc@[b]) <==> old_view.contains_key(scc@[b]))
                        && (rs0.contains_key(scc@[b]) ==> rs0[scc@[b]]@ == old_view[scc@[b]]) by {
                        assert(!key0.contains_key(scc@[b]));
                    }
                    assert(scc@.take(0) =~= Seq::<u64>::empty());
                    assert(member_sets(old_view, scc@.take(0)) =~= Seq::<(Map<u64, u64>, u64, u64)>::empty());
                }
                let mut olds: Vec<ReachSet> = Vec::new();
                let mut a: usize = 0;
                while a < scc.len()
                    invariant
                        a <= scc@.len(),
                        self.reach_sets@ == rs0,
                        forall|t: int| #![trigger olds@[t]] 0 <= t < olds@.len() ==> copied_from(olds@[t], scc@, rs0),
                        forall|b: int| 0 <= b < scc@.len() ==> (rs0.contains_key(#[trigger] scc@[b]) <==> old_view.contains_key(scc@[b]))
                            && (rs0.contains_key(scc@[b]) ==> rs0[scc@[b]]@ == old_view[scc@[b]]),
                        olds@.map_values(|r: ReachSet| r@) == member_sets(old_view, scc@.take(a as int)),
                    decreases scc@.len() - a,
                {
                    proof {
                        assert(scc@.take(a + 1).drop_last() =~= scc@.take(a as int));
                        assert(scc@.take(a + 1).last() == scc@[a as int]);
                    }
                    let ghost olds0 = olds@;
                    match self.reach_sets.get(&scc[a]) {
                        Some(set) => {
                            let copy = set.clone();
                            assert(rs0.contains_key(scc@[a as int]) && *set == rs0[scc@[a as int]]);
                            olds.push(copy);
                            proof {
                                assert(olds@.map_values(|r: ReachSet| r@) =~= olds0.map_values(|r: ReachSet| r@).push(old_view[scc@[a as int]]));
                                assert(olds@[olds0.len() as int]@ == rs0[scc@[a as int]]@);
                                assert forall|t: int| #![trigger olds@[t]] 0 <= t < olds@.len() implies copied_from(olds@[t], scc@, rs0) by {
                                    if t < olds0.len() {
                                        assert(olds@[t] == olds0[t]);
                                    } else {
                                        assert(rs0.contains_key(scc@[a as int]));
                                        assert(copied_from(olds@[t], scc@, rs0));
                                    }
                                }
                            }
                        },
                        None => {},
                    }
                    a += 1;
                }
                proof {
                    assert(scc@.take(scc@.len() as int) =~= scc@);
                }
                let mut new_set = ReachSet::merge(olds.as_slice(), time_bound);
                let ghost merged = new_set.times();
                let ghost mut bs: Seq<bool> = Seq::empty();
                let mut a: usize = 0;
                proof {
                    assert(scc@.take(0) =~= Seq::<u64>::empty());
                }
                while a < scc.len()
                    invariant
                        a <= scc@.len(),
                        forall|x: u64| is_match.requires((x,)),
                        forall|x: u64| #[trigger] new_set.times().contains_key(x) ==> merged.contains_key(x) || exists|c: int|
                            0 <= c < a && x == #[trigger] scc@[c] && is_match.ensures((scc@[c],), true),
                        bs.len() == a,
                        forall|k: int| 0 <= k < a ==> is_match.ensures((scc@[k],), #[trigger] bs[k]),
                        new_set.times() == with_matches(merged, scc@.take(a as int), bs, time),
                    decreases scc@.len() - a,
                {
                    let ghost t0 = new_set.times();
                    let m = is_match(scc[a]);
                    if m {
                        let _ = new_set.update_or_insert(scc[a], time, 0);
                    }
                    proof {
                        let bs0 = bs;
                        bs = bs.push(m);
                        assert(scc@.take(a + 1).drop_last() =~= scc@.take(a as int));
                        assert(scc@.take(a + 1).last() == scc@[a as int]);
                        assert(bs.drop_last() =~= bs0);
                        assert forall|k: int| 0 <= k < a + 1 implies is_match.ensures((scc@[k],), #[trigger] bs[k]) by {
                            if k < a {
                                assert(bs[k] == bs0[k]);
                            }
                        }
                    }
                    proof {
                        assert forall|x: u64| #[trigger] new_set.times().contains_key(x) implies merged.contains_key(x) || exists|c: int|
                            0 <= c < a + 1 && x == #[trigger] scc@[c] && is_match.ensures((scc@[c],), true) by {
                            if !t0.contains_key(x) {
                                assert(x == scc@[a as int]);
                            } else if !merged.contains_key(x) {
                                let c = choose|c: int| 0 <= c < a && x == #[trigger] scc@[c] && is_match.ensures((scc@[c],), true);
                            }
                        }
                    }
                    a += 1;
                }
                proof {
                    let vs = olds@.map_values(|r: ReachSet| r@);
                    assert forall|x: u64| #[trigger] new_set.times().contains_key(x) implies exists|c: int|
                        0 <= c < scc@.len() && sourced_at(old_view, is_match, x, #[trigger] scc@[c]) by {
                        if merged.contains_key(x) {
                            lemma_merged_from(vs, time_bound, x);
                            let t = choose|t: int| 0 <= t < vs.len() && #[trigger] vs[t].0.contains_key(x);
                            assert(vs[t] == olds@[t]@);
                            assert(copied_from(olds@[t], scc@, rs0));
                            let c = choose|c: int| 0 <= c < scc@.len() && rs0.contains_key(#[trigger] scc@[c]) && olds@[t]@ == rs0[scc@[c]]@;
                            assert(!key0.contains_key(scc@[c]));
                            assert(rs0[scc@[c]] == old(self).reach_sets@[scc@[c]]);
                            assert(sourced_at(old_view, is_match, x, scc@[c]));
                        } else {
                            let c = choose|c: int| 0 <= c < scc@.len() && x == #[trigger] scc@[c] && is_match.ensures((scc@[c],), true);
                            assert(sourced_at(old_view, is_match, x, scc@[c]));
                        }
                    }
                    assert forall|b: int| 0 <= b < scc@.len() implies (rs0.contains_key(#[trigger] scc@[b]) <==> old_view.contains_key(scc@[b]))
                        && (rs0.contains_key(scc@[b]) ==> rs0[scc@[b]]@ == old_view[scc@[b]]) by {
                        assert(!key0.contains_key(scc@[b]));
                    }
                }
                let mut a: usize = 0;
                while a < scc.len()
                    invariant
                        a <= scc@.len(),
                        scc@.len() > 0,
                        sets@ == sets0,
                        sets0.len() == i,
                        self.reach_sets@ == rs0,
                        forall|b: int| 0 <= b < scc@.len() ==> !key0.contains_key(#[trigger] scc@[b]),
                        forall|b: int, c: int| 0 <= b < scc@.len() && 0 <= c < scc@.len() && #[trigger] scc@[b] == #[trigger] scc@[c] ==> b == c,
                        key_of@ == key0.union_prefer_right(Map::new(|x: u64| scc@.take(a as int).contains(x), |x: u64| i)),
                        forall|v: u64| #[trigger] updated@.contains_key(v) ==> (upd0.contains_key(v) && updated@[v] == upd0[v])
                            || (scc@.take(a as int).contains(v) && updated@[v]@.subset_of(new_set@.0.dom())),
                        forall|v: u64| #[trigger] upd0.contains_key(v) ==> updated@.contains_key(v),
                        forall|v: u64| #[trigger] upd0.contains_key(v) ==> key0.contains_key(v)
                            && upd0[v]@.subset_of(sets0[key0[v] as int]@.0.dom()),
                        forall|x: u64| #[trigger] key0.contains_key(x) ==> key0[x] < i,
                        forall|v: u64| #[trigger] updated@.contains_key(v) <==> upd0.contains_key(v) || scc@.take(a as int).contains(v),
                        forall|v: u64| #[trigger] updated@.contains_key(v) && scc@.take(a as int).contains(v)
                            ==> updated@[v]@ == newer_ids(new_set@.0, old_times(old_view, v)).remove(v),
                        forall|b: int| 0 <= b < scc@.len() ==> (rs0.contains_key(#[trigger] scc@[b]) <==> old_view.contains_key(scc@[b]))
                            && (rs0.contains_key(scc@[b]) ==> rs0[scc@[b]]@ == old_view[scc@[b]]),
                    decreases scc@.len() - a,
                {
                    let id = scc[a];
                    let diff = match self.reach_sets.get(&id) {
                        Some(old_set) => new_set.difference(old_set),
                        None => new_set.iter(),
                    };
                    let ghost upd1 = updated@;
                    record_updates(updated, id, &diff, Some(id));
                    key_of.insert(id, i);
                    proof {
                        assert(scc@.take(a + 1) =~= scc@.take(a as int).push(id));
                        assert(!scc@.take(a as int).contains(id)) by {
                            if scc@.take(a as int).contains(id) {
                                let c = choose|c: int| 0 <= c < a && #[trigger] scc@.take(a as int)[c] == id;
                                assert(scc@[c] == scc@[a as int]);
                            }
                        }
                        assert forall|x: u64| #[trigger] scc@.take(a + 1).contains(x) <==> (scc@.take(a as int).contains(x) || x == id) by {
                            if scc@.take(a + 1).contains(x) && x != id {
                                let c = choose|c: int| 0 <= c < a + 1 && #[trigger] scc@.take(a + 1)[c] == x;
                                assert(scc@.take(a as int)[c] == x);
                            }
                            if scc@.take(a as int).contains(x) {
                                let c = choose|c: int| 0 <= c < a && #[trigger] scc@.take(a as int)[c] == x;
                                assert(scc@.take(a + 1)[c] == x);
                            }
                            if x == id {
                                assert(scc@.take(a + 1)[a as int] == x);
                            }
                        }
                        assert(key_of@ =~= key0.union_prefer_right(Map::new(|x: u64| scc@.take(a + 1).contains(x), |x: u64| i)));
                        assert forall|v: u64| #[trigger] updated@.contains_key(v) <==> upd0.contains_key(v) || scc@.take(a + 1).contains(v) by {
                            assert(updated@.contains_key(v) <==> upd1.contains_key(v) || v == id);
                        }
                        assert(!upd0.contains_key(id)) by {
                            if upd0.contains_key(id) {
                                assert(key0.contains_key(id));
                            }
                        }
                        assert forall|v: u64| #[trigger] updated@.contains_key(v) implies (upd0.contains_key(v) && updated@[v] == upd0[v])
                            || (scc@.take(a + 1).contains(v) && updated@[v]@.subset_of(new_set@.0.dom())) by {
                            if v == id {
                                assert(scc@.take(a + 1)[a as int] == id);
                            } else {
                                assert(upd1.contains_key(v));
                                if scc@.take(a as int).contains(v) && !(upd0.contains_key(v) && upd1[v] == upd0[v]) {
                                    let c = choose|c: int| 0 <= c < a && #[trigger] scc@.take(a as int)[c] == v;
                                    assert(scc@.take(a + 1)[c] == v);
                                }
                            }
                        }
                    }
                    proof {
                        let ot = old_times(old_view, id);
                        assert(id == scc@[a as int]);
                        assert(!upd1.contains_key(id));
                        assert(diff@.to_set() == newer_ids(new_set@.0, ot)) by {
                            if !rs0.contains_key(id) {
                                assert(newer_ids(new_set@.0, ot) =~= new_set@.0.dom());
                            }
                        }
                        assert(updated@[id]@ =~= newer_ids(new_set@.0, ot).remove(id));
                        assert forall|v: u64| #[trigger] updated@.contains_key(v) && scc@.take(a + 1).contains(v)
                            implies updated@[v]@ == newer_ids(new_set@.0, old_times(old_view, v)).remove(v) by {
                            if v != id {
                                assert(scc@.take(a as int).contains(v));
                                assert(upd1.contains_key(v));
                                assert(updated@[v] == upd1[v]);
                            }
                        }
                    }
                    a += 1;
                }
                let ghost new_times = new_set.times();
                let ghost new_view_set = new_set@;
                sets.push(new_set);
                proof {
                    assert(new_times == cycle_start(old_view, scc@, bs, time, time_bound));
                    assert forall|j: int| 0 <= j < i + 1 && #[trigger] sccs@[j]@.len() > 1 implies exists|bs2: Seq<bool>|
                        #![trigger cycle_start(old_view, sccs@[j]@, bs2, time, time_bound)]
                        bs2.len() == sccs@[j]@.len() && (forall|k: int| 0 <= k < bs2.len() ==> is_match.ensures((sccs@[j]@[k],), #[trigger] bs2[k]))
                            && sets@[j]@.0 == cycle_start(old_view, sccs@[j]@, bs2, time, time_bound) by {
                        if j < i {
                            let bs2 = choose|bs2: Seq<bool>|
                                #![trigger cycle_start(old_view, sccs@[j]@, bs2, time, time_bound)]
                                bs2.len() == sccs@[j]@.len() && (forall|k: int| 0 <= k < bs2.len() ==> is_match.ensures((sccs@[j]@[k],), #[trigger] bs2[k]))
                                    && sets0[j]@.0 == cycle_start(old_view, sccs@[j]@, bs2, time, time_bound);
                            assert(sets@[j] == sets0[j]);
                            assert(sets@[j]@.0 == cycle_start(old_view, sccs@[j]@, bs2, time, time_bound));
                        } else {
                            assert(sccs@[j]@ == scc@);
                            assert(sets@[j]@.0 == new_times);
                            assert(sets@[j]@.0 == cycle_start(old_view, sccs@[j]@, bs, time, time_bound));
                        }
                    }
                    assert forall|v: u64| #[trigger] updated@.contains_key(v) implies updated@[v]@ == newer_ids(
                        sets@[key_of@[v] as int]@.0,
                        old_times(old_view, v),
                    ).remove(v) by {
                        if scc@.contains(v) {
                            let c = choose|c: int| 0 <= c < scc@.len() && scc@[c] == v;
                            assert(scc@.take(scc@.len() as int)[c] == v);
                            assert(key_of@[v] == i);
                            assert(sets@[i as int]@ == new_view_set);
                        } else {
                            assert(upd0.contains_key(v) && updated@[v] == upd0[v]);
                            assert(key_of@[v] == key0[v]);
                            assert(sets@[key0[v] as int] == sets0[key0[v] as int]);
                        }
                    }
                    assert forall|j: int| 0 <= j < i + 1 && #[trigger] sccs@[j]@.len() == 1 implies exists|b: bool|
                        #![trigger start_times(old_view, sccs@[j]@[0], time, b)]
                        (!old_view.contains_key(sccs@[j]@[0]) ==> is_match.ensures((sccs@[j]@[0],), b))
                        && sets@[j]@.0 == start_times(old_view, sccs@[j]@[0], time, b) by {
                        if j < i {
                            let b = choose|b: bool|
                                #![trigger start_times(old_view, sccs@[j]@[0], time, b)]
                                (!old_view.contains_key(sccs@[j]@[0]) ==> is_match.ensures((sccs@[j]@[0],), b))
                                && sets0[j]@.0 == start_times(old_view, sccs@[j]@[0], time, b);
                            assert(sets@[j] == sets0[j]);
                            assert(sets@[j]@.0 == start_times(old_view, sccs@[j]@[0], time, b));
                        } else {
                            assert(scc@ == sccs@[j]@);
                        }
                    }
                    assert(scc@.take(scc@.len() as int) =~= scc@);
                    assert forall|j: int, x: u64| 0 <= j < i + 1 && #[trigger] sets@[j]@.0.contains_key(x) implies exists|c: int|
                        0 <= c < sccs@[j]@.len() && sourced_at(old_view, is_match, x, #[trigger] sccs@[j]@[c]) by {
                        if j < i {
                            assert(sets@[j] == sets0[j]);
                        } else {
                            assert(sets@[j]@.0 == new_times);
                            let c = choose|c: int| 0 <= c < scc@.len() && sourced_at(old_view, is_match, x, #[trigger] scc@[c]);
                            assert(sccs@[j]@[c] == scc@[c]);
                        }
                    }
                    assert forall|j: int, b: int| 0 <= j < i + 1 && 0 <= b < sccs@[j]@.len()
                        implies key_of@.contains_key(#[trigger] sccs@[j]@[b]) && key_of@[sccs@[j]@[b]] == j by {
                        if j == i {
                            assert(scc@.contains(scc@[b]));
                        }
                    }
                    assert forall|x: u64| #[trigger] key_of@.contains_key(x) implies {
                        let j = key_of@[x] as int;
                        0 <= j < i + 1 && exists|c: int| 0 <= c < sccs@[j]@.len() && sccs@[j]@[c] == x
                    } by {
                        if !key0.contains_key(x) {
                            assert(scc@.contains(x));
                            let c = choose|c: int| 0 <= c < scc@.len() && scc@[c] == x;
                            assert(sccs@[i as int]@[c] == x);
                        }
                    }
                    assert forall|x: u64| !key_of@.contains_key(x) implies #[trigger] self.reach_sets@.contains_key(x) == old(self).reach_sets@.contains_key(x) by {
                        assert(!key0.contains_key(x));
                    }
                    assert forall|x: u64| !key_of@.contains_key(x) && #[trigger] self.reach_sets@.contains_key(x)
                        implies self.reach_sets@[x] == old(self).reach_sets@[x] by {
                        assert(!key0.contains_key(x));
                    }
                    assert forall|v: u64| #[trigger] updated@.contains_key(v) implies key_of@.contains_key(v)
                        && updated@[v]@.subset_of(sets@[key_of@[v] as int]@.0.dom()) by {
                        if upd0.contains_key(v) && updated@[v] == upd0[v] {
                            assert(key0.contains_key(v));
                            assert(sets@[key0[v] as int] == sets0[key0[v] as int]);
                        } else {
                            assert(scc@.contains(v));
                        }
                    }
                    assert forall|v: u64| #[trigger] updated@.contains_key(v) <==> key_of@.contains_key(v)
                        && sccs@[key_of@[v] as int]@.len() > 1 by {
                        if scc@.contains(v) {
                            assert(key_of@[v] == i);
                        } else if key0.contains_key(v) {
                            assert(key_of@[v] == key0[v]);
                        }
                    }
                }
            } else {
                let first = scc[0];
                proof {
                    assert(!key0.contains_key(first));
                }
                let ghost mut matched: bool = false;
                let mut set = match self.reach_sets.remove(&first) {
                    Some(s) => s,
                    None => {
                        let m = is_match(first);
                        proof {
                            matched = m;
                        }
                        ReachSet::new(first, time, m)
                    },
                };
                proof {
                    assert forall|x: u64| #[trigger] set.times().contains_key(x) implies sourced_at(old_view, is_match, x, first) by {
                        if rs0.contains_key(first) {
                            assert(rs0[first] == old(self).reach_sets@[first]);
                        }
                    }
                }
                let ghost times1 = set.times();
                set.refresh_node(first, time);
                key_of.insert(first, i);
                sets.push(set);
                proof {
                    if old_view.contains_key(first) {
                        assert(rs0.contains_key(first));
                        assert(rs0[first] == old(self).reach_sets@[first]);
                        assert(times1 == old_view[first].0);
                    } else {
                        assert(!rs0.contains_key(first));
                        assert(times1 == fresh_set(first, time, matched).0);
                        assert(refreshed(times1, first, time) =~= times1);
                    }
                    assert(sets@[i as int]@.0 == start_times(old_view, first, time, matched));
                    assert forall|j: int| 0 <= j < i + 1 && #[trigger] sccs@[j]@.len() > 1 implies exists|bs2: Seq<bool>|
                        #![trigger cycle_start(old_view, sccs@[j]@, bs2, time, time_bound)]
                        bs2.len() == sccs@[j]@.len() && (forall|k: int| 0 <= k < bs2.len() ==> is_match.ensures((sccs@[j]@[k],), #[trigger] bs2[k]))
                            && sets@[j]@.0 == cycle_start(old_view, sccs@[j]@, bs2, time, time_bound) by {
                        if j < i {
                            let bs2 = choose|bs2: Seq<bool>|
                                #![trigger cycle_start(old_view, sccs@[j]@, bs2, time, time_bound)]
                                bs2.len() == sccs@[j]@.len() && (forall|k: int| 0 <= k < bs2.len() ==> is_match.ensures((sccs@[j]@[k],), #[trigger] bs2[k]))
                                    && sets0[j]@.0 == cycle_start(old_view, sccs@[j]@, bs2, time, time_bound);
                            assert(sets@[j] == sets0[j]);
                            assert(sets@[j]@.0 == cycle_start(old_view, sccs@[j]@, bs2, time, time_bound));
                        } else {
                            assert(sccs@[j]@ == scc@);
                        }
                    }
                    assert forall|v: u64| #[trigger] updated@.contains_key(v) implies updated@[v]@ == newer_ids(
                        sets@[key_of@[v] as int]@.0,
                        old_times(old_view, v),
                    ).remove(v) by {
                        assert(upd0.contains_key(v));
                        assert(key0.contains_key(v));
                        assert(v != first);
                        assert(key_of@[v] == key0[v]);
                        assert(sets@[key0[v] as int] == sets0[key0[v] as int]);
                    }
                    assert forall|j: int| 0 <= j < i + 1 && #[trigger] sccs@[j]@.len() == 1 implies exists|b: bool|
                        #![trigger start_times(old_view, sccs@[j]@[0], time, b)]
                        (!old_view.contains_key(sccs@[j]@[0]) ==> is_match.ensures((sccs@[j]@[0],), b))
                        && sets@[j]@.0 == start_times(old_view, sccs@[j]@[0], time, b) by {
                        if j < i {
                            let b = choose|b: bool|
                                #![trigger start_times(old_view, sccs@[j]@[0], time, b)]
                                (!old_view.contains_key(sccs@[j]@[0]) ==> is_match.ensures((sccs@[j]@[0],), b))
                                && sets0[j]@.0 == start_times(old_view, sccs@[j]@[0], time, b);
                            assert(sets@[j] == sets0[j]);
                            assert(sets@[j]@.0 == start_times(old_view, sccs@[j]@[0], time, b));
                        } else {
                            assert(sccs@[j]@[0] == first);
                            assert(sets@[j]@.0 == start_times(old_view, first, time, matched));
                        }
                    }
                    assert forall|j: int, x: u64| 0 <= j < i + 1 && #[trigger] sets@[j]@.0.contains_key(x) implies exists|c: int|
                        0 <= c < sccs@[j]@.len() && sourced_at(old_view, is_match, x, #[trigger] sccs@[j]@[c]) by {
                        if j < i {
                            assert(sets@[j] == sets0[j]);
                        } else {
                            assert(times1.contains_key(x));
                            assert(sccs@[j]@[0] == first);
                        }
                    }
                    assert forall|j: int, b: int| 0 <= j < i + 1 && 0 <= b < sccs@[j]@.len()
                        implies key_of@.contains_key(#[trigger] sccs@[j]@[b]) && key_of@[sccs@[j]@[b]] == j by {
                        if j == i {
                            assert(b == 0);
                        } else {
                            assert(sccs@[j]@[b] != first) by {
                                if sccs@[j]@[b] == first {
                                    assert(sccs@[i as int]@[0] == sccs@[j]@[b]);
                                }
                            }
                        }
                    }
                    assert forall|x: u64| #[trigger] key_of@.contains_key(x) implies {
                        let j = key_of@[x] as int;
                        0 <= j < i + 1 && exists|c: int| 0 <= c < sccs@[j]@.len() && sccs@[j]@[c] == x
                    } by {
                        if x == first {
                            assert(sccs@[i as int]@[0] == x);
                        }
                    }
                    assert forall|v: u64| #[trigger] updated@.contains_key(v) implies key_of@.contains_key(v)
                        && updated@[v]@.subset_of(sets@[key_of@[v] as int]@.0.dom()) by {
                        assert(key0.contains_key(v));
                        assert(sets@[key0[v] as int] == sets0[key0[v] as int]);
                    }
                    assert forall|v: u64| #[trigger] updated@.contains_key(v) <==> key_of@.contains_key(v)
                        && sccs@[key_of@[v] as int]@.len() > 1 by {
                        if v == first {
                            assert(!key0.contains_key(first));
                            assert(!upd0.contains_key(first));
                            assert(scc@.len() == 1);
                        } else if key0.contains_key(v) {
                            assert(key_of@[v] == key0[v]);
                        }
                    }
                }
            }
            i += 1;
        }
        proof {
            let init = sets@.map_values(|r: ReachSet| r@.0);
            let sv = sccs@.map_values(|c: Vec<u64>| c@);
            assert forall|j: int| 0 <= j < sv.len() && #[trigger] sv[j].len() == 1 implies exists|b: bool|
                #![trigger start_times(old(self)@, sv[j][0], time, b)]
                (!old(self)@.contains_key(sv[j][0]) ==> is_match.ensures((sv[j][0],), b))
                && init[j] == start_times(old(self)@, sv[j][0], time, b) by {
                assert(sv[j] == sccs@[j]@);
                let b = choose|b: bool|
                    #![trigger start_times(old_view, sccs@[j]@[0], time, b)]
                    (!old_view.contains_key(sccs@[j]@[0]) ==> is_match.ensures((sccs@[j]@[0],), b))
                    && sets@[j]@.0 == start_times(old_view, sccs@[j]@[0], time, b);
                assert(init[j] == start_times(old(self)@, sv[j][0], time, b));
            }
            reveal(singles_start);
            assert forall|v: u64| #[trigger] key_of@.contains_key(v) && sv[key_of@[v] as int].len() > 1 implies updated@.contains_key(v)
                && updated@[v]@ == newer_ids(init[key_of@[v] as int], old_times(old(self)@, v)).remove(v) by {
                assert(sv[key_of@[v] as int] == sccs@[key_of@[v] as int]@);
            }
            reveal(multis_start);
            assert forall|j: int| 0 <= j < sv.len() && #[trigger] sv[j].len() > 1 implies exists|bs: Seq<bool>|
                #![trigger cycle_start(old(self)@, sv[j], bs, time, time_bound)]
                bs.len() == sv[j].len() && (forall|k: int| 0 <= k < bs.len() ==> is_match.ensures((sv[j][k],), #[trigger] bs[k]))
                    && init[j] == cycle_start(old(self)@, sv[j], bs, time, time_bound) by {
                assert(sv[j] == sccs@[j]@);
                let bs = choose|bs: Seq<bool>|
                    #![trigger cycle_start(old_view, sccs@[j]@, bs, time, time_bound)]
                    bs.len() == sccs@[j]@.len() && (forall|k: int| 0 <= k < bs.len() ==> is_match.ensures((sccs@[j]@[k],), #[trigger] bs[k]))
                        && sets@[j]@.0 == cycle_start(old_view, sccs@[j]@, bs, time, time_bound);
                assert(init[j] == cycle_start(old(self)@, sv[j], bs, time, time_bound));
            }
            reveal(cycles_start);
        }
        sets
    }

    /// Adds a batch of arcs that all carry `time`, as if at once; `is_match` says which nodes
    /// match a signature. Nodes on a common cycle of the batch end with the same reach set,
    /// and every arc of the batch leads the nodes that reach its source within the window on
    /// to its target. Returns, for each node whose set a merge or a union touched (the nodes
    /// that share a cycle of the batch with another node, and the targets of the arcs whose
    /// target does not lead back to their source), the nodes that its set gained: for a node on
    /// no cycle, those newer in its final set than in the set it started from; for a node on a
    /// cycle, those newer in the merged set of the cycle than in its own old set (itself left
    /// out), together with the gains of the unions into the cycle that were recorded for it
    /// (which node of a cycle records a union's gains depends on the order in which the
    /// components and their arcs are listed).
    #[verifier::spinoff_prover]
    #[verifier::rlimit(100)]
    pub fn add_batch(&mut self, batch: &[(u64, u64)], time: u64, is_match: impl Fn(u64) -> bool) -> (res: HashMap<u64, HashSet<u64>>)
        requires
            forall|x: u64| is_match.requires((x,)),
        ensures
            final(self).window_size == old(self).window_size,
            final(self)@.dom() == old(self)@.dom() + end_nodes(batch@),
            forall|k: u64| #[trigger] old(self)@.contains_key(k) && !end_nodes(batch@).contains(k) ==> final(self)@[k] == old(self)@[k],
            forall|u: u64, v: u64| #[trigger] batch@.contains((u, v))
                ==> flows_into(final(self)@[u], final(self)@[v], window_start(time, old(self).window_size)),
            forall|v: u64| #[trigger] res@.contains_key(v) ==> end_nodes(batch@).contains(v)
                && res@[v]@.subset_of(final(self)@[v].0.dom()),
            forall|p: Seq<u64>, q: Seq<u64>|
                #![trigger batch_walk(batch@, p), batch_walk(batch@, q)]
                p.len() >= 2 && q.len() >= 2 && batch_walk(batch@, p) && batch_walk(batch@, q) && p.last() == q[0]
                    && q.last() == p[0] ==> final(self)@[p[0]] == final(self)@[q[0]],
            forall|v: u64| #[trigger] res@.contains_key(v) <==> (exists|w: u64| w != v && end_nodes(batch@).contains(v)
                && end_nodes(batch@).contains(w) && #[trigger] mutually_reach(batch@.to_set(), v, w)) || (exists|w: u64|
                #[trigger] batch@.to_set().contains((w, v)) && !mutually_reach(batch@.to_set(), w, v)),
            forall|v: u64, x: u64| final(self)@.contains_key(v) && #[trigger] final(self)@[v].0.contains_key(x) ==> exists|w: u64|
                #[trigger] reaches(batch@.to_set(), w, v) && sourced_at(old(self)@, &is_match, x, w),
            forall|v: u64| #[trigger] res@.contains_key(v) && !in_batch_cycle(batch@, v) ==> alone_result(
                old(self)@,
                &is_match,
                v,
                time,
                batch@,
                final(self)@,
                window_start(time, old(self).window_size),
                res@[v]@,
            ),
            forall|v: u64, x: u64| #[trigger] res@.contains_key(v) && in_batch_cycle(batch@, v)
                && #[trigger] newer_ids(final(self)@[v].0, old_times(old(self)@, v)).contains(x) && x != v
                ==> res@[v]@.contains(x) || exists|w: u64| #[trigger] mutually_reach(batch@.to_set(), v, w)
                    && res@.contains_key(w) && res@[w]@.contains(x),
            forall|v: u64| #[trigger] res@.contains_key(v) && in_batch_cycle(batch@, v) ==> cycle_result(
                old(self)@,
                &is_match,
                v,
                time,
                batch@,
                final(self)@,
                window_start(time, old(self).window_size),
                res@[v]@,
            ),
            forall|v: u64| #[trigger] end_nodes(batch@).contains(v) && !in_batch_cycle(batch@, v) && !res@.contains_key(v)
                ==> untouched_result(old(self)@, &is_match, v, time, final(self)@[v].0),
            forall|cap: u64| capped(old(self)@, cap) && time <= cap ==> #[trigger] capped(final(self)@, cap),
            forall|m: spec_fn(u64) -> bool| answers_as(&is_match, m) && self_held(old(self)@, m) ==> #[trigger] self_held(
                final(self)@,
                m,
            ),
    {
        let time_bound = time.saturating_sub(self.window_size);
        let g = arc_graph(batch);
        let sccs = strongly_connected(&g);
        let ghost sv = sccs@.map_values(|c: Vec<u64>| c@);
        let ghost arcs = graph_map_arcs(g);
        let ghost nodes = graph_map_nodes(g);
        proof {
            assert forall|i: int| 0 <= i < sccs@.len() implies #[trigger] sccs@[i]@.len() > 0 by {
                assert(sv[i].len() > 0);
            }
            assert forall|i: int, a: int, j: int, b: int|
                0 <= i < sccs@.len() && 0 <= a < sccs@[i]@.len() && 0 <= j < sccs@.len() && 0 <= b < sccs@[j]@.len()
                    && #[trigger] sccs@[i]@[a] == #[trigger] sccs@[j]@[b] implies i == j && a == b by {
                assert(sv[i][a] == sv[j][b]);
            }
        }
        let mut key_of: HashMap<u64, usize> = HashMap::new();
        let mut updated: HashMap<u64, HashSet<u64>> = HashMap::new();
        let ghost old_sets = self.reach_sets@;
        let ghost old_sets_view = self@;
        let mut sets = self.component_sets(&sccs, time, time_bound, &is_match, &mut key_of, &mut updated);
        let ghost mid_sets = self.reach_sets@;
        proof {
            assert forall|x: u64| #[trigger] nodes.contains(x) implies key_of@.contains_key(x) by {
                let (i, a) = choose|i: int, a: int| 0 <= i < sv.len() && 0 <= a < sv[i].len() && #[trigger] sv[i][a] == x;
                assert(sccs@[i]@[a] == x);
            }
            assert forall|x: u64| #[trigger] key_of@.contains_key(x) implies nodes.contains(x) by {
                let i = key_of@[x] as int;
                let a = choose|a: int| 0 <= a < sccs@[i]@.len() && sccs@[i]@[a] == x;
                assert(sv[i][a] == x);
            }
            assert forall|u: u64, v: u64| #[trigger] arcs.contains((u, v))
                implies key_of@.contains_key(u) && key_of@.contains_key(v) && key_of@[v] <= key_of@[u] by {
                assert(batch@.to_set().contains((u, v)));
                let e = choose|e: int| 0 <= e < batch@.len() && batch@[e] == (u, v);
                assert(end_nodes(batch@).contains(u) && end_nodes(batch@).contains(v));
                let i = key_of@[u] as int;
                let j = key_of@[v] as int;
                let a = choose|a: int| 0 <= a < sccs@[i]@.len() && sccs@[i]@[a] == u;
                let b = choose|b: int| 0 <= b < sccs@[j]@.len() && sccs@[j]@[b] == v;
                assert(sv[i][a] == u && sv[j][b] == v);
                assert(arcs.contains((sv[i][a], sv[j][b])));
            }
        }
        let ghost upd_mid = updated@;
        let ghost sets_pre = sets@;
        union_along(&mut sets, &sccs, &g, &key_of, &mut updated, time_bound, Ghost(|x: u64, w: u64| sourced_at(old_sets_view, &is_match, x, w)));
        proof {
            assert forall|v: u64| #[trigger] updated@.dom().contains(v) <==> (key_of@.contains_key(v) && sv[key_of@[v] as int].len() > 1)
                || exists|w: u64| #[trigger] batch@.to_set().contains((w, v)) && key_of@[w] != key_of@[v] by {
                assert(upd_mid.contains_key(v) <==> key_of@.contains_key(v) && sccs@[key_of@[v] as int]@.len() > 1);
                if key_of@.contains_key(v) {
                    assert(sv[key_of@[v] as int] == sccs@[key_of@[v] as int]@);
                }
            }
            lemma_batch_touched(batch@, sv, key_of@, updated@.dom());
        }
        let mut i: usize = 0;
        while i < sccs.len()
            invariant
                i <= sccs@.len(),
                sets@.len() == sccs@.len(),
                self.window_size == old(self).window_size,
                forall|i: int, a: int| 0 <= i < sccs@.len() && 0 <= a < sccs@[i]@.len()
                    ==> key_of@.contains_key(#[trigger] sccs@[i]@[a]) && key_of@[sccs@[i]@[a]] == i,
                forall|x: u64| #[trigger] key_of@.contains_key(x) && key_of@[x] < i
                    ==> self.reach_sets@.contains_key(x) && self.reach_sets@[x]@ == sets@[key_of@[x] as int]@,
                forall|x: u64| #[trigger] key_of@.contains_key(x) ==> {
                    let i = key_of@[x] as int;
                    0 <= i < sccs@.len() && exists|a: int| 0 <= a < sccs@[i]@.len() && sccs@[i]@[a] == x
                },
                forall|x: u64| !key_of@.contains_key(x) ==> #[trigger] self.reach_sets@.contains_key(x) == mid_sets.contains_key(x),
                forall|x: u64| !key_of@.contains_key(x) && #[trigger] self.reach_sets@.contains_key(x)
                    ==> self.reach_sets@[x] == mid_sets[x],
                forall|x: u64| #[trigger] self.reach_sets@.contains_key(x) ==> key_of@.contains_key(x) || mid_sets.contains_key(x),
            decreases sccs@.len() - i,
        {
            let scc = &sccs[i];
            let mut a: usize = 0;
            while a < scc.len()
                invariant
                    i < sccs@.len(),
                    scc@ == sccs@[i as int]@,
                    a <= scc@.len(),
                    sets@.len() == sccs@.len(),
                    self.window_size == old(self).window_size,
                    forall|i: int, a: int| 0 <= i < sccs@.len() && 0 <= a < sccs@[i]@.len()
                        ==> key_of@.contains_key(#[trigger] sccs@[i]@[a]) && key_of@[sccs@[i]@[a]] == i,
                    forall|x: u64| #[trigger] key_of@.contains_key(x) && key_of@[x] < i
                        ==> self.reach_sets@.contains_key(x) && self.reach_sets@[x]@ == sets@[key_of@[x] as int]@,
                    forall|c: int| 0 <= c < a ==> self.reach_sets@.contains_key(#[trigger] scc@[c]) && self.reach_sets@[scc@[c]]@ == sets@[i as int]@,
                    forall|x: u64| !key_of@.contains_key(x) ==> #[trigger] self.reach_sets@.contains_key(x) == mid_sets.contains_key(x),
                    forall|x: u64| !key_of@.contains_key(x) && #[trigger] self.reach_sets@.contains_key(x)
                        ==> self.reach_sets@[x] == mid_sets[x],
                    forall|x: u64| #[trigger] self.reach_sets@.contains_key(x) ==> key_of@.contains_key(x) || mid_sets.contains_key(x),
                decreases scc@.len() - a,
            {
                let id = scc[a];
                proof {
                    assert(key_of@.contains_key(id) && key_of@[id] == i);
                }
                self.reach_sets.insert(id, sets[i].clone());
                proof {
                    assert forall|c: int| 0 <= c < a + 1 implies self.reach_sets@.contains_key(#[trigger] scc@[c]) && self.reach_sets@[scc@[c]]@ == sets@[i as int]@ by {
                        if c < a && scc@[c] != id {
                        }
                    }
                }
                a += 1;
            }
            proof {
                assert forall|x: u64| #[trigger] key_of@.contains_key(x) && key_of@[x] < i + 1
                    implies self.reach_sets@.contains_key(x) && self.reach_sets@[x]@ == sets@[key_of@[x] as int]@ by {
                    if key_of@[x] == i {
                        let c = choose|c: int| 0 <= c < sccs@[i as int]@.len() && sccs@[i as int]@[c] == x;
                        assert(scc@[c] == x);
                    }
                }
            }
            i += 1;
        }
        proof {
            let new_view = self@;
            let ends = end_nodes(batch@);
            assert forall|x: u64| #[trigger] ends.contains(x) <==> key_of@.contains_key(x) by {
                if ends.contains(x) {
                    let e = choose|e: int| 0 <= e < batch@.len() && (batch@[e].0 == x || batch@[e].1 == x);
                    assert(nodes.contains(x));
                }
                if key_of@.contains_key(x) {
                    assert(nodes.contains(x));
                }
            }
            assert(new_view.dom() =~= old(self)@.dom() + ends);
            assert forall|u: u64, v: u64| #[trigger] batch@.contains((u, v))
                implies flows_into(new_view[u], new_view[v], window_start(time, old(self).window_size)) by {
                let e = choose|e: int| 0 <= e < batch@.len() && batch@[e] == (u, v);
                assert(batch@.to_set().contains((u, v)));
                assert(arcs.contains((u, v)));
                assert(key_of@.contains_key(u) && key_of@.contains_key(v));
                assert(new_view[u] == sets@[key_of@[u] as int]@);
                assert(new_view[v] == sets@[key_of@[v] as int]@);
                if key_of@[u] == key_of@[v] {
                    assert forall|x: u64| #[trigger] new_view[u].0.contains_key(x) && new_view[u].0[x] >= time_bound implies new_view[v].0.contains_key(x) by {}
                }
            }
            assert forall|v: u64| #[trigger] updated@.contains_key(v) implies ends.contains(v)
                && updated@[v]@.subset_of(new_view[v].0.dom()) by {
                assert(key_of@.contains_key(v));
            }
            assert forall|u: u64, v: u64| #[trigger] batch@.contains((u, v))
                implies key_of@.contains_key(u) && key_of@.contains_key(v) && key_of@[v] <= key_of@[u] by {
                assert(batch@.to_set().contains((u, v)));
            }
            assert forall|p: Seq<u64>, q: Seq<u64>|
                #![trigger batch_walk(batch@, p), batch_walk(batch@, q)]
                p.len() >= 2 && q.len() >= 2 && batch_walk(batch@, p) && batch_walk(batch@, q) && p.last() == q[0]
                    && q.last() == p[0] implies new_view[p[0]] == new_view[q[0]] by {
                lemma_walk_keys(batch@, key_of@, p);
                lemma_walk_keys(batch@, key_of@, q);
                assert(new_view[p[0]] == sets@[key_of@[p[0]] as int]@);
                assert(new_view[q[0]] == sets@[key_of@[q[0]] as int]@);
            }
            let sets_v = sets@.map_values(|r: ReachSet| r@);
            assert forall|v: u64| #[trigger] ends.contains(v) implies new_view.contains_key(v) && new_view[v] == sets_v[key_of@[v] as int] by {
                assert(key_of@.contains_key(v));
            }
            assert forall|j: int, x: u64| 0 <= j < sv.len() && #[trigger] sets_v[j].0.contains_key(x) implies exists|w: u64, c: int|
                0 <= c < sv[j].len() && #[trigger] reaches(arcs, w, sv[j][c]) && sourced_at(old_sets_view, &is_match, x, w) by {
                assert(sets@[j]@.0.contains_key(x));
                let (w, c) = choose|w: u64, c: int| 0 <= c < sccs@[j]@.len() && #[trigger] reaches(arcs, w, sccs@[j]@[c]) && sourced_at(old_sets_view, &is_match, x, w);
                assert(sv[j][c] == sccs@[j]@[c]);
            }
            lemma_sets_sourced(old_sets_view, new_view, sets_v, sv, arcs, key_of@, ends, &is_match);
            assert forall|v: u64| #[trigger] key_of@.contains_key(v) implies new_view.contains_key(v)
                && new_view[v] == sets@[key_of@[v] as int]@ by {
                assert(ends.contains(v));
            }
            lemma_batch_results(
                batch@,
                sccs@,
                key_of@,
                updated@,
                sets@,
                sets_pre,
                upd_mid,
                old_sets_view,
                new_view,
                time,
                window_start(time, old(self).window_size),
                &is_match,
            );
        }
        updated
    }

    /// The time at which the flow from `src` into `dst` started, when there is one.
    pub fn get_updated_time(&self, src: u64, dst: u64) -> (res: Option<u64>)
        ensures
            res == (if self@.contains_key(dst) && self@[dst].0.contains_key(src) {
                Some(self@[dst].0[src])
            } else {
                None::<u64>
            }),
    {
        match self.reach_sets.get(&dst) {
            Some(set) => set.get_update_time_of(src),
            None => None,
        }
    }

    /// Drops what is older than `time_bound` from every reach set, and the sets left empty.
    pub fn del_outdated(&mut self, time_bound: u64)
        ensures
            final(self).window_size == old(self).window_size,
            forall|k: u64| #[trigger] final(self)@.contains_key(k) <==> old(self)@.contains_key(k)
                && !trimmed_times(old(self)@[k], time_bound).is_empty(),
            forall|k: u64| #[trigger] final(self)@.contains_key(k) ==> trimmed(old(self)@[k], final(self)@[k], time_bound),
    {
        let ghost old_view = self@;
        let ids = keys_of(&self.reach_sets);
        let mut k: usize = 0;
        while k < ids.len()
            invariant
                self.window_size == old(self).window_size,
                ids@.no_duplicates(),
                ids@.to_set() == old_view.dom(),
                k <= ids@.len(),
                forall|x: u64| #[trigger] self@.contains_key(x) <==> old_view.contains_key(x)
                    && (ids@.take(k as int).contains(x) ==> !trimmed_times(old_view[x], time_bound).is_empty()),
                forall|x: u64| #[trigger] self@.contains_key(x) ==> (if ids@.take(k as int).contains(x) {
                    trimmed(old_view[x], self@[x], time_bound)
                } else {
                    self@[x] == old_view[x]
                }),
            decreases ids@.len() - k,
        {
            let id = ids[k];
            proof {
                assert(ids@.to_set().contains(id));
                assert(ids@.take(k + 1) =~= ids@.take(k as int).push(id));
                assert(!ids@.take(k as int).contains(id)) by {
                    if ids@.take(k as int).contains(id) {
                        let j = choose|j: int| 0 <= j < k && #[trigger] ids@.take(k as int)[j] == id;
                        assert(ids@[j] == ids@[k as int]);
                    }
                }
                assert(self@.contains_key(id));
            }
            let ghost before = self@;
            let mut set = self.reach_sets.remove(&id).unwrap();
            set.del_outdated(time_bound);
            let empty = set.is_empty();
            if !empty {
                self.reach_sets.insert(id, set);
            }
            proof {
                assert(trimmed_times(old_view[id], time_bound) =~= set@.0);
                assert forall|x: u64| #[trigger] self@.contains_key(x) <==> old_view.contains_key(x)
                    && (ids@.take(k + 1).contains(x) ==> !trimmed_times(old_view[x], time_bound).is_empty()) by {
                    if x != id {
                        if ids@.take(k + 1).contains(x) {
                            let j = choose|j: int| 0 <= j < k + 1 && #[trigger] ids@.take(k + 1)[j] == x;
                            assert(ids@.take(k as int)[j] == x);
                        }
                        if ids@.take(k as int).contains(x) {
                            let j = choose|j: int| 0 <= j < k && #[trigger] ids@.take(k as int)[j] == x;
                            assert(ids@.take(k + 1)[j] == x);
                        }
                        assert(self@.contains_key(x) == before.contains_key(x));
                    } else {
                        assert(ids@.take(k + 1)[k as int] == id);
                    }
                }
                assert forall|x: u64| #[trigger] self@.contains_key(x) implies (if ids@.take(k + 1).contains(x) {
                    trimmed(old_view[x], self@[x], time_bound)
                } else {
                    self@[x] == old_view[x]
                }) by {
                    if x != id {
                        assert(before.contains_key(x) && self@[x] == before[x]);
                        if ids@.take(k + 1).contains(x) {
                            let j = choose|j: int| 0 <= j < k + 1 && #[trigger] ids@.take(k + 1)[j] == x;
                            assert(ids@.take(k as int)[j] == x);
                        }
                        if ids@.take(k as int).contains(x) {
                            let j = choose|j: int| 0 <= j < k && #[trigger] ids@.take(k as int)[j] == x;
                            assert(ids@.take(k + 1)[j] == x);
                        }
                    } else {
                        assert(ids@.take(k + 1)[k as int] == id);
                    }
                }
            }
            k += 1;
        }
        proof {
            assert(ids@.take(ids@.len() as int) =~= ids@);
            assert forall|x: u64| old_view.contains_key(x) implies #[trigger] ids@.contains(x) by {
                assert(ids@.to_set().contains(x));
            }
        }
    }
}
/// Adding an arc from `src` to `dst` takes no node out of the reach set of `dst`; every node
/// that reached `src` within the window, and `src` itself when it is traced, reaches `dst`
/// afterwards.
pub proof fn lemma_arc_extends_flows(
    old: Map<u64, (Map<u64, u64>, u64, u64)>,
    new: Map<u64, (Map<u64, u64>, u64, u64)>,
    res: Seq<u64>,
    src: u64,
    dst: u64,
    time: u64,
    window: u64,
    src_match: bool,
    dst_match: bool,
)
    requires
        src != dst,
        arc_added(old, new, res, src, dst, time, window, src_match, dst_match),
    ensures
        new.contains_key(dst),
        forall|x: u64| old.contains_key(dst) && #[trigger] old[dst].0.contains_key(x) ==> new[dst].0.contains_key(x),
        forall|x: u64| old.contains_key(src) && #[trigger] old[src].0.contains_key(x)
            && old[src].0[x] >= window_start(time, window) ==> new[dst].0.contains_key(x),
        old.contains_key(src) && old[src].0.contains_key(src) ==> new[dst].0.contains_key(src),
        !old.contains_key(src) && src_match ==> new[dst].0.contains_key(src),
{
    let bound = window_start(time, window);
    let d0 = if old.contains_key(dst) { old[dst] } else { fresh_set(dst, time, dst_match) };
    let d1 = refreshed_set(d0, dst, time);
    assert forall|x: u64| old.contains_key(dst) && #[trigger] old[dst].0.contains_key(x) implies d1.0.contains_key(x) by {}
    if old.contains_key(src) {
        let s1 = refreshed_set(old[src], src, time);
        assert forall|x: u64| old.contains_key(src) && #[trigger] old[src].0.contains_key(x)
            && old[src].0[x] >= bound implies new[dst].0.contains_key(x) by {
            assert(s1.0.contains_key(x) && s1.0[x] >= bound);
        }
        if old[src].0.contains_key(src) {
            assert(s1.0.contains_key(src) && s1.0[src] == time);
        }
    }
}

} // verus!
