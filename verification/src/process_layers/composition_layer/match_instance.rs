use vstd::prelude::*;
use std::collections::HashSet;
use std::rc::Rc;
use crate::input_event::InputEvent;
use crate::match_event::{MatchEvent, MatchEventView, match_event_views};
use crate::process_layers::composition_layer::pattern_info::SharedNodeInfo;
use crate::process_layers::join_layer::sub_pattern_match::{is_sorted, keys_sorted};

verus! {

broadcast use vstd::std_specs::hash::group_hash_axioms;

/// `s` is strictly increasing.
pub open spec fn strictly_ascending(s: Seq<u64>) -> bool {
    forall|i: int, j: int| 0 <= i < j < s.len() ==> s[i] < s[j]
}

/// `v` lists, in increasing order, exactly the values of `s`.
pub open spec fn sorted_values_of(v: Seq<u64>, s: Seq<u64>) -> bool {
    &&& strictly_ascending(v)
    &&& forall|x: u64| v.contains(x) <==> s.contains(x)
}

/// Inserts `x` into the strictly increasing `v`, unless it is already there.
pub fn insert_sorted(v: &mut Vec<u64>, x: u64) -> (inserted: bool)
    requires
        strictly_ascending(old(v)@),
    ensures
        strictly_ascending(final(v)@),
        inserted == !old(v)@.contains(x),
        forall|y: u64| final(v)@.contains(y) <==> (old(v)@.contains(y) || y == x),
{
    let mut p: usize = 0;
    while p < v.len() && v[p] < x
        invariant
            p <= v@.len(),
            v@ == old(v)@,
            forall|i: int| 0 <= i < p ==> v@[i] < x,
        decreases v@.len() - p,
    {
        p += 1;
    }
    if p < v.len() && v[p] == x {
        assert(v@[p as int] == x);
        return false;
    }
    let ghost s = v@;
    assert forall|i: int| 0 <= i < s.len() implies s[i] != x by {
        if i >= p {
            assert(s[p as int] > x);
            if i > p {
                assert(s[p as int] < s[i]);
            }
        }
    }
    v.insert(p, x);
    assert(v@ == s.insert(p as int, x));
    assert forall|i: int, j: int| 0 <= i < j < v@.len() implies v@[i] < v@[j] by {
        if j < p {
        } else if j == p {
        } else if i < p {
            assert(s[i] < s[j - 1]);
        } else if i == p {
            assert(s[p as int] > x);
            if j - 1 > p {
                assert(s[p as int] < s[j - 1]);
            }
        } else {
            assert(s[i - 1] < s[j - 1]);
        }
    }
    proof {
        lemma_insert_contains(s, p as int, x);
    }
    assert(s == old(v)@);
    true
}

proof fn lemma_insert_contains<A>(s: Seq<A>, p: int, x: A)
    requires
        0 <= p <= s.len(),
    ensures
        forall|y: A| #[trigger] s.insert(p, x).contains(y) <==> (s.contains(y) || y == x),
{
    let t = s.insert(p, x);
    assert forall|y: A| t.contains(y) <==> (s.contains(y) || y == x) by {
        if t.contains(y) {
            let k = choose|k: int| 0 <= k < t.len() && t[k] == y;
            if k < p {
                assert(s[k] == y);
            } else if k > p {
                assert(s[k - 1] == y);
            }
        }
        if s.contains(y) {
            let k = choose|k: int| 0 <= k < s.len() && s[k] == y;
            if k < p {
                assert(t[k] == y);
            } else {
                assert(t[k + 1] == y);
            }
        }
        if y == x {
            assert(t[p] == x);
        }
    }
}

proof fn lemma_dup_extends<A>(a: Seq<A>, b: Seq<A>)
    requires
        !a.no_duplicates(),
    ensures
        !(a + b).no_duplicates(),
{
    let (i, j) = choose|i: int, j: int|
        0 <= i < a.len() && 0 <= j < a.len() && i != j && a[i] == a[j];
    assert((a + b)[i] == a[i] && (a + b)[j] == a[j]);
}

/// Inserts every id of `ids` into `v`, which holds the values of `before`; returns `false` as
/// soon as an id is met twice.
fn insert_all(v: &mut Vec<u64>, ids: &[u64], Ghost(before): Ghost<Seq<u64>>) -> (ok: bool)
    requires
        sorted_values_of(old(v)@, before),
        before.no_duplicates(),
    ensures
        ok == (before + ids@).no_duplicates(),
        ok ==> sorted_values_of(final(v)@, before + ids@),
{
    let ghost all = before + ids@;
    let mut k: usize = 0;
    while k < ids.len()
        invariant
            k <= ids@.len(),
            all == before + ids@,
            sorted_values_of(v@, before + ids@.subrange(0, k as int)),
            (before + ids@.subrange(0, k as int)).no_duplicates(),
        decreases ids@.len() - k,
    {
        let ghost pre = before + ids@.subrange(0, k as int);
        let x = ids[k];
        if !insert_sorted(v, x) {
            proof {
                let i = choose|i: int| 0 <= i < pre.len() && pre[i] == x;
                assert(all[i] == pre[i]);
                assert(all[before.len() + k] == x);
            }
            return false;
        }
        proof {
            let next = before + ids@.subrange(0, k + 1);
            assert(next =~= pre.push(x));
            assert forall|y: u64| next.contains(y) <==> (pre.contains(y) || y == x) by {
                if next.contains(y) {
                    let j = choose|j: int| 0 <= j < next.len() && next[j] == y;
                    if j < pre.len() {
                        assert(pre[j] == y);
                    }
                }
                if pre.contains(y) {
                    let j = choose|j: int| 0 <= j < pre.len() && pre[j] == y;
                    assert(next[j] == y);
                }
                if y == x {
                    assert(next[pre.len() as int] == y);
                }
            }
            assert forall|i: int, j: int| 0 <= i < next.len() && 0 <= j < next.len() && i != j
                implies next[i] != next[j] by {
                if i == pre.len() {
                    assert(pre.contains(next[j]));
                } else if j == pre.len() {
                    assert(pre.contains(next[i]));
                }
            }
        }
        k += 1;
    }
    assert(ids@.subrange(0, ids@.len() as int) =~= ids@);
    true
}

/// Concatenates two id lists and sorts them; `None` when an id occurs twice.
pub fn dup_extend_event_ids(event_ids: &[u64], new_ids: &[u64]) -> (res: Option<Vec<u64>>)
    ensures
        match res {
            Some(v) => (event_ids@ + new_ids@).no_duplicates() && sorted_values_of(
                v@,
                event_ids@ + new_ids@,
            ),
            None => !(event_ids@ + new_ids@).no_duplicates(),
        },
{
    let mut v: Vec<u64> = Vec::new();
    assert(Seq::<u64>::empty() + event_ids@ =~= event_ids@);
    if !insert_all(&mut v, event_ids, Ghost(Seq::empty())) {
        proof {
            lemma_dup_extends(event_ids@, new_ids@);
        }
        return None;
    }
    if !insert_all(&mut v, new_ids, Ghost(event_ids@)) {
        return None;
    }
    Some(v)
}

/// `p` is where an entry for input entity `id` goes in `s`: every entry before it has a
/// smaller entity id, and the entry at `p`, if any, does not.
pub open spec fn is_insert_pos(s: Seq<(u64, u64)>, id: u64, p: int) -> bool {
    &&& 0 <= p <= s.len()
    &&& forall|i: int| 0 <= i < p ==> #[trigger] s[i].0 < id
    &&& p < s.len() ==> s[p].0 >= id
}

/// The position where an entry for input entity `id` goes in `s`.
pub open spec fn insert_pos(s: Seq<(u64, u64)>, id: u64) -> int {
    choose|p: int| is_insert_pos(s, id, p)
}

pub proof fn lemma_insert_pos(s: Seq<(u64, u64)>, id: u64, p: int)
    requires
        is_insert_pos(s, id, p),
    ensures
        insert_pos(s, id) == p,
{
    let q = insert_pos(s, id);
    assert(is_insert_pos(s, id, q));
    if q < p {
        assert(s[q].0 < id);
    } else if p < q {
        assert(s[p].0 < id);
    }
}

/// The entity list with `(id, pattern_id)` inserted at its position; `None` when the list
/// already holds `id` there.
pub open spec fn extend_entities_list(s: Seq<(u64, u64)>, id: u64, pattern_id: u64) -> Option<
    Seq<(u64, u64)>,
> {
    let p = insert_pos(s, id);
    if p < s.len() && s[p].0 == id {
        None
    } else {
        Some(s.insert(p, (id, pattern_id)))
    }
}

/// Clone `match_entities` and add (`entity_id`, `pattern_id`) to it.
///
/// Returns `None` when `entity_id` is already in it.
pub fn dup_extend_entities_list(match_entities: &[(u64, u64)], entity_id: u64, pattern_id: u64) -> (res:
    Option<Vec<(u64, u64)>>)
    ensures
        match res {
            Some(v) => extend_entities_list(match_entities@, entity_id, pattern_id) == Some(v@),
            None => extend_entities_list(match_entities@, entity_id, pattern_id) is None,
        },
{
    let ghost s = match_entities@;
    let n = match_entities.len();
    let mut p: usize = 0;
    while p < n && match_entities[p].0 < entity_id
        invariant
            s == match_entities@,
            n == s.len(),
            p <= n,
            forall|i: int| 0 <= i < p ==> #[trigger] s[i].0 < entity_id,
        decreases n - p,
    {
        p += 1;
    }
    proof {
        lemma_insert_pos(s, entity_id, p as int);
    }
    if p < n && match_entities[p].0 == entity_id {
        return None;
    }
    let mut new_entities: Vec<(u64, u64)> = Vec::new();
    let mut i: usize = 0;
    while i < p
        invariant
            s == match_entities@,
            n == s.len(),
            p <= n,
            i <= p,
            new_entities@ =~= s.subrange(0, i as int),
        decreases p - i,
    {
        new_entities.push(match_entities[i]);
        i += 1;
    }
    new_entities.push((entity_id, pattern_id));
    while i < n
        invariant
            s == match_entities@,
            n == s.len(),
            p <= i <= n,
            new_entities@ =~= s.subrange(0, p as int).push((entity_id, pattern_id)) + s.subrange(
                p as int,
                i as int,
            ),
        decreases n - i,
    {
        new_entities.push(match_entities[i]);
        i += 1;
    }
    assert(new_entities@ =~= s.insert(p as int, (entity_id, pattern_id)));
    Some(new_entities)
}

/// The entity list of an instance after it takes `event`, given which endpoints of the
/// event's pattern are already matched; `None` when a new endpoint is already in the list.
pub open spec fn extend_entities_by_event(
    s: Seq<(u64, u64)>,
    event: MatchEvent,
    shared_node_info: SharedNodeInfo,
) -> Option<Seq<(u64, u64)>> {
    let subject = (event.input_subject_id, event.pattern_subject_id);
    let object = (event.input_object_id, event.pattern_object_id);
    match shared_node_info {
        SharedNodeInfo::Neither => if event.input_subject_id < event.input_object_id {
            Some(seq![subject, object])
        } else {
            Some(seq![object, subject])
        },
        SharedNodeInfo::Subject => extend_entities_list(s, object.0, object.1),
        SharedNodeInfo::Object => extend_entities_list(s, subject.0, subject.1),
        SharedNodeInfo::Both => Some(s),
    }
}

pub fn copy_pairs(s: &[(u64, u64)]) -> (res: Vec<(u64, u64)>)
    ensures
        res@ == s@,
{
    let mut res: Vec<(u64, u64)> = Vec::new();
    let mut i: usize = 0;
    while i < s.len()
        invariant
            i <= s@.len(),
            res@ =~= s@.subrange(0, i as int),
        decreases s@.len() - i,
    {
        res.push(s[i]);
        i += 1;
    }
    assert(res@ =~= s@);
    res
}

fn copy_ids(s: &[u64]) -> (res: Vec<u64>)
    ensures
        res@ == s@,
{
    let mut res: Vec<u64> = Vec::new();
    let mut i: usize = 0;
    while i < s.len()
        invariant
            i <= s@.len(),
            res@ =~= s@.subrange(0, i as int),
        decreases s@.len() - i,
    {
        res.push(s[i]);
        i += 1;
    }
    assert(res@ =~= s@);
    res
}

fn copy_match_events(s: &[MatchEvent]) -> (res: Vec<MatchEvent>)
    ensures
        match_event_views(res@) == match_event_views(s@),
{
    let mut res: Vec<MatchEvent> = Vec::new();
    let mut i: usize = 0;
    while i < s.len()
        invariant
            i <= s@.len(),
            match_event_views(res@) =~= match_event_views(s@.subrange(0, i as int)),
        decreases s@.len() - i,
    {
        let event = s[i].clone();
        let ghost prev = res@;
        res.push(event);
        proof {
            assert(s@.subrange(0, i + 1) =~= s@.subrange(0, i as int).push(s@[i as int]));
            assert(match_event_views(res@) =~= match_event_views(prev).push(event@));
            assert(match_event_views(s@.subrange(0, i + 1)) =~= match_event_views(
                s@.subrange(0, i as int),
            ).push(s@[i as int]@));
        }
        i += 1;
    }
    assert(s@.subrange(0, s@.len() as int) =~= s@);
    res
}

/// Adds the entities of `event` to `match_entities`, as [extend_entities_by_event] says.
pub fn dup_extend_entities_by_event(
    match_entities: &[(u64, u64)],
    event: &MatchEvent,
    shared_node_info: SharedNodeInfo,
) -> (res: Option<Vec<(u64, u64)>>)
    ensures
        match res {
            Some(v) => extend_entities_by_event(match_entities@, *event, shared_node_info) == Some(
                v@,
            ),
            None => extend_entities_by_event(match_entities@, *event, shared_node_info) is None,
        },
{
    let subject = (event.input_subject_id, event.pattern_subject_id);
    let object = (event.input_object_id, event.pattern_object_id);
    match shared_node_info {
        SharedNodeInfo::Neither => {
            let mut v: Vec<(u64, u64)> = Vec::new();
            if event.input_subject_id < event.input_object_id {
                v.push(subject);
                v.push(object);
                assert(v@ =~= seq![subject, object]);
            } else {
                v.push(object);
                v.push(subject);
                assert(v@ =~= seq![object, subject]);
            }
            Some(v)
        },
        SharedNodeInfo::Subject => dup_extend_entities_list(match_entities, object.0, object.1),
        SharedNodeInfo::Object => dup_extend_entities_list(match_entities, subject.0, subject.1),
        SharedNodeInfo::Both => Some(copy_pairs(match_entities)),
    }
}

/// Whether the sorted `ids` holds `x`, by binary search.
pub fn sorted_contains(ids: &[u64], x: u64) -> (res: bool)
    requires
        is_sorted(ids@),
    ensures
        res == ids@.contains(x),
{
    let mut lo: usize = 0;
    let mut hi: usize = ids.len();
    while lo < hi
        invariant
            hi <= ids@.len(),
            lo <= hi,
            is_sorted(ids@),
            forall|i: int| 0 <= i < lo ==> ids@[i] < x,
            forall|i: int| hi <= i < ids@.len() ==> ids@[i] > x,
        decreases hi - lo,
    {
        let mid = lo + (hi - lo) / 2;
        if ids[mid] < x {
            lo = mid + 1;
        } else if ids[mid] > x {
            hi = mid;
        } else {
            assert(ids@[mid as int] == x);
            return true;
        }
    }
    false
}

/// The position of `entity_id` among the entries, if it is there.
pub fn find_entity(match_entities: &[(u64, u64)], entity_id: u64) -> (res: Option<usize>)
    requires
        keys_sorted(match_entities@),
    ensures
        match res {
            Some(i) => i < match_entities@.len() && match_entities@[i as int].0
                == entity_id,
            None => forall|i: int|
                0 <= i < match_entities@.len() ==> #[trigger] match_entities@[i].0
                    != entity_id,
        },
{
    let entries = match_entities;
    let mut lo: usize = 0;
    let mut hi: usize = entries.len();
    while lo < hi
        invariant
            entries@ == match_entities@,
            hi <= entries@.len(),
            lo <= hi,
            keys_sorted(entries@),
            forall|i: int| 0 <= i < lo ==> #[trigger] entries@[i].0 < entity_id,
            forall|i: int| hi <= i < entries@.len() ==> #[trigger] entries@[i].0 > entity_id,
        decreases hi - lo,
    {
        let mid = lo + (hi - lo) / 2;
        let key = entries[mid].0;
        if key < entity_id {
            proof {
                assert forall|i: int| 0 <= i <= mid implies #[trigger] entries@[i].0
                    < entity_id by {
                    if i < mid {
                        assert(entries@[i].0 < entries@[mid as int].0);
                    }
                }
            }
            lo = mid + 1;
        } else if key > entity_id {
            proof {
                assert forall|i: int| mid <= i < entries@.len() implies #[trigger] entries@[i].0
                    > entity_id by {
                    if i > mid {
                        assert(entries@[mid as int].0 < entries@[i].0);
                    }
                }
            }
            hi = mid;
        } else {
            assert(match_entities@[mid as int].0 == entity_id);
            return Some(mid);
        }
    }
    None
}


/// A partial match of a sub-pattern, waiting in a state of the state table.
pub struct MatchInstance {
    pub start_time: u64,
    pub match_events: Vec<MatchEvent>,
    /// Sorted array of `(input entity id, pattern entity id)`.
    ///
    /// `match_entities.len()` == number of entities in this sub-pattern match.
    pub match_entities: Vec<(u64, u64)>,
    pub event_ids: Vec<u64>,
    pub state_id: u32,
}

/// The fields of a [MatchInstance], with its vectors taken by their views.
pub struct MatchInstanceView {
    pub start_time: u64,
    pub match_events: Seq<MatchEventView>,
    pub match_entities: Seq<(u64, u64)>,
    pub event_ids: Seq<u64>,
    pub state_id: u32,
}

impl View for MatchInstance {
    type V = MatchInstanceView;

    open spec fn view(&self) -> MatchInstanceView {
        MatchInstanceView {
            start_time: self.start_time,
            match_events: match_event_views(self.match_events@),
            match_entities: self.match_entities@,
            event_ids: self.event_ids@,
            state_id: self.state_id,
        }
    }
}

impl Clone for MatchInstance {
    fn clone(&self) -> (res: Self)
        ensures
            res@ == self@,
    {
        MatchInstance {
            start_time: self.start_time,
            match_events: copy_match_events(&self.match_events),
            match_entities: copy_pairs(&self.match_entities),
            event_ids: copy_ids(&self.event_ids),
            state_id: self.state_id,
        }
    }
}

/// The smaller of two timestamps.
pub open spec fn min_time(a: u64, b: u64) -> u64 {
    if a <= b {
        a
    } else {
        b
    }
}

impl MatchInstance {
    /// An instance with nothing in it, left behind when an instance is moved out.
    pub fn dead_default() -> (res: Self)
        ensures
            res@ == (MatchInstanceView {
                start_time: 0,
                match_events: Seq::empty(),
                match_entities: Seq::empty(),
                event_ids: Seq::empty(),
                state_id: 0,
            }),
    {
        let res = MatchInstance {
            start_time: 0,
            match_events: Vec::new(),
            match_entities: Vec::new(),
            event_ids: Vec::new(),
            state_id: 0,
        };
        assert(match_event_views(res.match_events@) =~= Seq::empty());
        res
    }

    /// Clone this instance and insert `new_event` into the new instance. `shared_node_info`
    /// tells which endpoints of the event are already in the instance, so that only the new
    /// entities are added.
    ///
    /// Returns `None` when an input event or a new entity would occur twice.
    pub fn clone_extend(&self, new_event: MatchEvent, shared_node_info: SharedNodeInfo) -> (res:
        Option<Self>)
        requires
            new_event.raw_events.well_formed(),
        ensures
            res is Some <==> (self.event_ids@ + new_event.raw_events.ids()).no_duplicates()
                && extend_entities_by_event(self.match_entities@, new_event, shared_node_info) is Some,
            res matches Some(r) ==> {
                &&& r.start_time == min_time(self.start_time, new_event.raw_events.interval().0)
                &&& r.state_id == self.state_id
                &&& sorted_values_of(r.event_ids@, self.event_ids@ + new_event.raw_events.ids())
                &&& extend_entities_by_event(self.match_entities@, new_event, shared_node_info)
                    == Some(r.match_entities@)
                &&& r@.match_events == self@.match_events.push(new_event@)
            },
    {
        let new_ids = new_event.raw_events.get_ids();
        let event_ids = match dup_extend_event_ids(&self.event_ids, &new_ids) {
            Some(ids) => ids,
            None => return None,
        };
        let match_entities = match dup_extend_entities_by_event(
            &self.match_entities,
            &new_event,
            shared_node_info,
        ) {
            Some(entities) => entities,
            None => return None,
        };
        let interval = new_event.raw_events.get_interval();
        let start_time = if self.start_time <= interval.0 {
            self.start_time
        } else {
            interval.0
        };
        let ghost new_view = new_event@;
        let mut match_events = copy_match_events(&self.match_events);
        match_events.push(new_event);
        assert(match_event_views(match_events@) =~= self@.match_events.push(new_view));
        Some(MatchInstance {
            start_time,
            match_events,
            match_entities,
            event_ids,
            state_id: self.state_id,
        })
    }

    /// Adds the flow event to the new instance. Unlike [MatchInstance::clone_extend], the ids in
    /// the flow event are neither checked against the instance's events nor recorded for later
    /// checks.
    pub fn clone_extend_flow(&self, new_event: MatchEvent, shared_node_info: SharedNodeInfo) -> (res:
        Option<Self>)
        requires
            new_event.raw_events.well_formed(),
        ensures
            res is Some <==> extend_entities_by_event(
                self.match_entities@,
                new_event,
                shared_node_info,
            ) is Some,
            res matches Some(r) ==> {
                &&& r.start_time == min_time(self.start_time, new_event.raw_events.interval().0)
                &&& r.state_id == self.state_id
                &&& r.event_ids@ == self.event_ids@
                &&& extend_entities_by_event(self.match_entities@, new_event, shared_node_info)
                    == Some(r.match_entities@)
                &&& r@.match_events == self@.match_events.push(new_event@)
            },
    {
        let event_ids = copy_ids(&self.event_ids);
        let match_entities = match dup_extend_entities_by_event(
            &self.match_entities,
            &new_event,
            shared_node_info,
        ) {
            Some(entities) => entities,
            None => return None,
        };
        let interval = new_event.raw_events.get_interval();
        let start_time = if self.start_time <= interval.0 {
            self.start_time
        } else {
            interval.0
        };
        let ghost new_view = new_event@;
        let mut match_events = copy_match_events(&self.match_events);
        match_events.push(new_event);
        assert(match_event_views(match_events@) =~= self@.match_events.push(new_view));
        Some(MatchInstance {
            start_time,
            match_events,
            match_entities,
            event_ids,
            state_id: self.state_id,
        })
    }

    /// Return true if the input event is already in this instance.
    pub fn contains_event(&self, input_event_id: u64) -> (res: bool)
        requires
            is_sorted(self.event_ids@),
        ensures
            res == self.event_ids@.contains(input_event_id),
    {
        sorted_contains(&self.event_ids, input_event_id)
    }

    /// Return true if the entity is already in this instance.
    pub fn contains_eneity(&self, entity_id: u64) -> (res: bool)
        requires
            keys_sorted(self.match_entities@),
        ensures
            res == exists|i: int|
                0 <= i < self.match_entities@.len() && #[trigger] self.match_entities@[i].0
                    == entity_id,
    {
        match find_entity(&self.match_entities, entity_id) {
            Some(_) => true,
            None => false,
        }
    }

    /// Return true if adding this (`entity_id`, `pattern_id`) pair to this match instance would
    /// result in entity collision: the same input entity matching different pattern entities.
    pub fn conflict_with_entity(&self, entity_id: u64, pattern_id: u64) -> (res: bool)
        requires
            keys_sorted(self.match_entities@),
        ensures
            res == exists|i: int|
                0 <= i < self.match_entities@.len() && #[trigger] self.match_entities@[i].0
                    == entity_id && self.match_entities@[i].1 != pattern_id,
    {
        match find_entity(&self.match_entities, entity_id) {
            Some(index) => {
                proof {
                    assert forall|i: int|
                        0 <= i < self.match_entities@.len() && #[trigger] self.match_entities@[i].0
                            == entity_id implies i == index by {
                        if i < index {
                            assert(self.match_entities@[i].0 < self.match_entities@[index as int].0);
                        } else if i > index {
                            assert(self.match_entities@[index as int].0 < self.match_entities@[i].0);
                        }
                    }
                }
                self.match_entities[index].1 != pattern_id
            },
            None => false,
        }
    }
}

/// A match instance gathering distinct input events for a frequency pattern event.
pub struct FreqInstance {
    pub instance: MatchInstance,
    pub start_time: u64,
    pub remain_freq: u32,
    pub cur_set: HashSet<u64>,
    pub new_events: Vec<Rc<InputEvent>>,
}

/// `fi` counts toward `frequency` from the ids `base`: the ids it still waits for and the ids it
/// has seen beyond `base` add up to `frequency`.
pub open spec fn counts_toward(fi: FreqInstance, base: Set<u64>, frequency: u32) -> bool {
    &&& fi.cur_set@.finite()
    &&& base.subset_of(fi.cur_set@)
    &&& fi.remain_freq + fi.cur_set@.difference(base).len() == frequency
}

/// A frequency instance as `new` starts it counts toward its frequency from the ids of its
/// instance, and is full when the frequency is zero.
pub proof fn lemma_freq_start(fi: FreqInstance, instance: MatchInstance, frequency: u32)
    requires
        fi.cur_set@ == instance.event_ids@.to_set(),
        fi.remain_freq == frequency,
    ensures
        counts_toward(fi, instance.event_ids@.to_set(), frequency),
{
    vstd::seq_lib::seq_to_set_is_finite(instance.event_ids@);
    assert(fi.cur_set@.difference(instance.event_ids@.to_set()) =~= Set::<u64>::empty());
}

/// Adding an event as `add_event` does keeps the count, so a frequency instance is full exactly
/// when it has seen `frequency` ids beyond those it started from.
pub proof fn lemma_freq_add(a: FreqInstance, b: FreqInstance, id: u64, base: Set<u64>, frequency: u32)
    requires
        counts_toward(a, base, frequency),
        !a.cur_set@.contains(id) ==> a.remain_freq > 0,
        b.cur_set@ == a.cur_set@.insert(id),
        b.remain_freq == (if a.cur_set@.contains(id) { a.remain_freq } else { (a.remain_freq - 1) as u32 }),
    ensures
        counts_toward(b, base, frequency),
        (b.remain_freq == 0) <==> b.cur_set@.difference(base).len() == frequency,
{
    if a.cur_set@.contains(id) {
        assert(b.cur_set@ =~= a.cur_set@);
    } else {
        assert(!base.contains(id));
        assert(b.cur_set@.difference(base) =~= a.cur_set@.difference(base).insert(id));
        assert(a.cur_set@.difference(base).finite());
        assert(!a.cur_set@.difference(base).contains(id));
    }
}

/// `states` is a run of `add_event` calls on a frequency instance that `new` started from
/// `instance` and `frequency`: `states[i + 1]` is `states[i]` after adding an event with id
/// `ids[i]`, each call meeting the precondition of `add_event`.
pub open spec fn freq_run(states: Seq<FreqInstance>, ids: Seq<u64>, instance: MatchInstance, frequency: u32) -> bool {
    &&& states.len() == ids.len() + 1
    &&& states[0].cur_set@ == instance.event_ids@.to_set()
    &&& states[0].remain_freq == frequency
    &&& forall|i: int|
        #![trigger states[i + 1]]
        0 <= i < ids.len() ==> {
            &&& (!states[i].cur_set@.contains(ids[i]) ==> states[i].remain_freq > 0)
            &&& states[i + 1].cur_set@ == states[i].cur_set@.insert(ids[i])
            &&& states[i + 1].remain_freq == if states[i].cur_set@.contains(ids[i]) {
                states[i].remain_freq
            } else {
                (states[i].remain_freq - 1) as u32
            }
        }
}

proof fn lemma_freq_run_prefix(states: Seq<FreqInstance>, ids: Seq<u64>, instance: MatchInstance, frequency: u32, k: int)
    requires
        freq_run(states, ids, instance, frequency),
        0 <= k <= ids.len(),
    ensures
        counts_toward(states[k], instance.event_ids@.to_set(), frequency),
        states[k].cur_set@ == instance.event_ids@.to_set() + ids.take(k).to_set(),
    decreases k,
{
    let base = instance.event_ids@.to_set();
    if k == 0 {
        lemma_freq_start(states[0], instance, frequency);
        assert(ids.take(0).to_set() =~= Set::<u64>::empty());
        assert(states[0].cur_set@ =~= base + ids.take(0).to_set());
    } else {
        lemma_freq_run_prefix(states, ids, instance, frequency, k - 1);
        assert(states[(k - 1) + 1] == states[k]);
        lemma_freq_add(states[k - 1], states[k], ids[k - 1], base, frequency);
        assert(ids.take(k) =~= ids.take(k - 1).push(ids[k - 1]));
        ids.take(k - 1).lemma_push_to_set_commute(ids[k - 1]);
        assert(states[k].cur_set@ =~= base + ids.take(k).to_set());
    }
}

/// After any run of `add_event` calls on a frequency instance that `new` started, it is full
/// exactly when the distinct ids added that its instance did not already hold number
/// `frequency`.
pub proof fn lemma_full_iff_distinct_count(states: Seq<FreqInstance>, ids: Seq<u64>, instance: MatchInstance, frequency: u32)
    requires
        freq_run(states, ids, instance, frequency),
    ensures
        (states.last().remain_freq == 0) <==> ids.to_set().difference(instance.event_ids@.to_set()).len() == frequency,
{
    let base = instance.event_ids@.to_set();
    let n = ids.len() as int;
    lemma_freq_run_prefix(states, ids, instance, frequency, n);
    assert(ids.take(n) =~= ids);
    assert(states[n].cur_set@.difference(base) =~= ids.to_set().difference(base));
}

impl FreqInstance {
    /// Starts counting at `time`, with the ids of `instance` already in the set.
    pub fn new(instance: MatchInstance, frequency: u32, time: u64) -> (res: Self)
        ensures
            res.instance == instance,
            res.start_time == time,
            res.remain_freq == frequency,
            res.cur_set@ == instance.event_ids@.to_set(),
            res.new_events@ == Seq::<Rc<InputEvent>>::empty(),
    {
        let mut cur_set: HashSet<u64> = HashSet::new();
        let mut i: usize = 0;
        while i < instance.event_ids.len()
            invariant
                i <= instance.event_ids@.len(),
                cur_set@ == instance.event_ids@.subrange(0, i as int).to_set(),
            decreases instance.event_ids@.len() - i,
        {
            let id = instance.event_ids[i];
            cur_set.insert(id);
            proof {
                let ids = instance.event_ids@;
                assert(ids.subrange(0, i + 1) =~= ids.subrange(0, i as int).push(id));
                ids.subrange(0, i as int).lemma_push_to_set_commute(id);
            }
            i += 1;
        }
        assert(instance.event_ids@.subrange(0, instance.event_ids@.len() as int)
            =~= instance.event_ids@);
        FreqInstance { instance, start_time: time, remain_freq: frequency, cur_set, new_events: Vec::new() }
    }

    /// Adds an event id into the frequency tracing set.
    ///
    /// Returns `true` if the event id was not previously in the set.
    pub fn add_event(&mut self, event: &Rc<InputEvent>) -> (res: bool)
        requires
            !old(self).cur_set@.contains(event.event_id) ==> old(self).remain_freq > 0,
        ensures
            res == !old(self).cur_set@.contains(event.event_id),
            final(self).cur_set@ == old(self).cur_set@.insert(event.event_id),
            final(self).remain_freq == if res {
                (old(self).remain_freq - 1) as u32
            } else {
                old(self).remain_freq
            },
            final(self).new_events@ == if res {
                old(self).new_events@.push(*event)
            } else {
                old(self).new_events@
            },
            final(self).instance == old(self).instance,
            final(self).start_time == old(self).start_time,
    {
        if self.cur_set.insert(event.event_id) {
            self.remain_freq = self.remain_freq - 1;
            self.new_events.push(event.clone());
            true
        } else {
            false
        }
    }

    /// All the required events have been seen.
    pub fn is_full(&self) -> (res: bool)
        ensures
            res == (self.remain_freq == 0),
    {
        self.remain_freq == 0
    }
}

} // verus!
