use vstd::prelude::*;
use std::collections::HashSet;
use vstd::std_specs::iter::IteratorSpec;
use crate::process_layers::compo_layer::filter::FilterInfo;
use crate::process_layers::composition_layer::match_instance::{
    copy_pairs, dup_extend_entities_list, dup_extend_event_ids, extend_entities_list, find_entity,
    insert_pos, insert_sorted, is_insert_pos, lemma_insert_pos, sorted_contains, sorted_values_of, strictly_ascending,
};
use crate::process_layers::composition_layer::state::StateData;
use crate::process_layers::join_layer::sub_pattern_match::{is_sorted, keys_sorted};
use crate::process_layers::matching_layer::PartialMatchEvent;
use crate::universal_match_event::{copy_u64s, UniversalMatchEvent};
use std::collections::HashMap;
use std::rc::Rc;
use crate::input_event::InputEvent;
use crate::match_event::{MatchEvent, RawEvents, RawEventsView};
use crate::pattern::PatternEventType;

verus! {

broadcast use vstd::std_specs::hash::group_hash_axioms;

/// The input events of a match event, as `inputs` holds them: one, several for a frequency
/// event, or the time span of a flow event.
pub open spec fn raw_events_of(e: UniversalMatchEvent, inputs: Map<u64, Rc<InputEvent>>) -> RawEventsView {
    if e.matched.event_type == PatternEventType::Flow {
        RawEventsView::Flow(e.start_time, e.end_time)
    } else if e.event_ids@.len() == 1 {
        RawEventsView::Single(inputs[e.event_ids@[0]])
    } else {
        RawEventsView::Multiple(e.event_ids@.map_values(|id: u64| inputs[id]))
    }
}

/// `m` is the match event of the join layer that `e` stands for.
pub open spec fn converted(m: MatchEvent, e: UniversalMatchEvent, inputs: Map<u64, Rc<InputEvent>>) -> bool {
    &&& m.match_id == e.matched.id
    &&& m.input_subject_id == e.subject_id
    &&& m.input_object_id == e.object_id
    &&& m.pattern_subject_id == e.matched.subject.id
    &&& m.pattern_object_id == e.matched.object.id
    &&& m.raw_events@ == raw_events_of(e, inputs)
}

/// Every input event of `e` is in `inputs`, and its pattern event id fits in `u32`.
pub open spec fn convertible(e: UniversalMatchEvent, inputs: Map<u64, Rc<InputEvent>>) -> bool {
    &&& e.matched.id < u32::MAX
    &&& e.matched.event_type != PatternEventType::Flow ==> forall|k: int|
        0 <= k < e.event_ids@.len() ==> inputs.contains_key(#[trigger] e.event_ids@[k])
}

/// The match event of the join layer that `e` stands for; `None` when an input event of it is
/// not in `inputs` or its pattern event id does not fit in `u32`.
pub fn to_match_event(e: &UniversalMatchEvent, inputs: &HashMap<u64, Rc<InputEvent>>) -> (res: Option<MatchEvent>)
    ensures
        res is Some <==> convertible(*e, inputs@),
        res matches Some(m) ==> converted(m, *e, inputs@),
{
    if e.matched.id >= 0xFFFF_FFFFusize {
        return None;
    }
    let raw_events = if e.matched.event_type == PatternEventType::Flow {
        RawEvents::Flow(e.start_time, e.end_time)
    } else {
        let mut events: Vec<Rc<InputEvent>> = Vec::new();
        let mut k: usize = 0;
        while k < e.event_ids.len()
            invariant
                k <= e.event_ids@.len(),
                e.matched.event_type != PatternEventType::Flow,
                events@ == e.event_ids@.take(k as int).map_values(|id: u64| inputs@[id]),
                forall|t: int| 0 <= t < k ==> inputs@.contains_key(#[trigger] e.event_ids@[t]),
            decreases e.event_ids@.len() - k,
        {
            match inputs.get(&e.event_ids[k]) {
                Some(input) => {
                    events.push(Rc::clone(input));
                    proof {
                        assert(e.event_ids@.take(k + 1).map_values(|id: u64| inputs@[id]) =~= e.event_ids@.take(
                            k as int,
                        ).map_values(|id: u64| inputs@[id]).push(inputs@[e.event_ids@[k as int]]));
                    }
                },
                None => {
                    return None;
                },
            }
            k += 1;
        }
        proof {
            assert(e.event_ids@.take(e.event_ids@.len() as int) =~= e.event_ids@);
        }
        if events.len() == 1 {
            let single = events.pop().unwrap();
            RawEvents::Single(single)
        } else {
            RawEvents::Multiple(events)
        }
    };
    Some(
        MatchEvent {
            match_id: e.matched.id as u32,
            input_subject_id: e.subject_id,
            input_object_id: e.object_id,
            pattern_subject_id: e.matched.subject.id as u64,
            pattern_object_id: e.matched.object.id as u64,
            raw_events,
        },
    )
}

/// `a` holds the same state as `b`, a frequency state the same set of ids.
pub open spec fn same_state(a: StateData, b: StateData) -> bool {
    match (a, b) {
        (StateData::Default { next_state: n }, StateData::Default { next_state: m }) => n == m,
        (
            StateData::AggFreq { next_state: n, frequency: f, current_set: s },
            StateData::AggFreq { next_state: m, frequency: g, current_set: t },
        ) => n == m && f == g && s@ == t@,
        (StateData::Output { subpattern_id: x }, StateData::Output { subpattern_id: y }) => x == y,
        (StateData::Dead, StateData::Dead) => true,
        _ => false,
    }
}

/// `e` is the match of the single input event of `m`.
pub open spec fn is_single_match(e: UniversalMatchEvent, m: PartialMatchEvent) -> bool {
    &&& e.matched == m.matched
    &&& e.start_time == m.input_event.timestamp
    &&& e.end_time == m.input_event.timestamp
    &&& e.subject_id == m.input_event.subject_id
    &&& e.object_id == m.input_event.object_id
    &&& e.event_ids@ == seq![m.input_event.event_id]
}

/// Copies a set of ids.
fn copy_set(s: &HashSet<u64>) -> (res: HashSet<u64>)
    ensures
        res@ == s@,
{
    let mut dst: HashSet<u64> = HashSet::new();
    let ghost keys = IteratorSpec::remaining(&s.iter());
    for x in it: s.iter()
        invariant
            it.seq() == keys,
            keys.unref().to_set() == s@,
            forall|y: u64| #[trigger] dst@.contains(y) <==> exists|k: int| 0 <= k < it.index() && *keys[k] == y,
    {
        dst.insert(*x);
    }
    assert forall|y: u64| dst@.contains(y) <==> s@.contains(y) by {
        if s@.contains(y) {
            assert(keys.unref().to_set().contains(y));
            let k = choose|k: int| 0 <= k < keys.unref().len() && keys.unref()[k] == y;
            assert(*keys[k] == y);
        }
        if exists|k: int| 0 <= k < keys.len() && *keys[k] == y {
            let k = choose|k: int| 0 <= k < keys.len() && *keys[k] == y;
            assert(keys.unref()[k] == y);
            assert(keys.unref().to_set().contains(y));
        }
    }
    assert(dst@ =~= s@);
    dst
}

/// The ids of a set, in increasing order.
fn sorted_ids_of(s: &HashSet<u64>) -> (res: Vec<u64>)
    ensures
        strictly_ascending(res@),
        forall|y: u64| #[trigger] res@.contains(y) <==> s@.contains(y),
{
    let mut v: Vec<u64> = Vec::new();
    let ghost keys = IteratorSpec::remaining(&s.iter());
    for x in it: s.iter()
        invariant
            it.seq() == keys,
            keys.unref().to_set() == s@,
            strictly_ascending(v@),
            forall|y: u64| #[trigger] v@.contains(y) <==> exists|k: int| 0 <= k < it.index() && *keys[k] == y,
    {
        insert_sorted(&mut v, *x);
    }
    assert forall|y: u64| #[trigger] v@.contains(y) <==> s@.contains(y) by {
        if s@.contains(y) {
            assert(keys.unref().to_set().contains(y));
            let k = choose|k: int| 0 <= k < keys.unref().len() && keys.unref()[k] == y;
            assert(*keys[k] == y);
        }
        if exists|k: int| 0 <= k < keys.len() && *keys[k] == y {
            let k = choose|k: int| 0 <= k < keys.len() && *keys[k] == y;
            assert(keys.unref()[k] == y);
            assert(keys.unref().to_set().contains(y));
        }
    }
    v
}

/// Copies the data of a state.
fn copy_state_data(d: &StateData) -> (res: StateData)
    ensures
        same_state(res, *d),
{
    match d {
        StateData::Default { next_state } => StateData::Default { next_state: *next_state },
        StateData::AggFreq { next_state, frequency, current_set } => StateData::AggFreq {
            next_state: *next_state,
            frequency: *frequency,
            current_set: copy_set(current_set),
        },
        StateData::Output { subpattern_id } => StateData::Output { subpattern_id: *subpattern_id },
        StateData::Dead => StateData::Dead,
    }
}

/// The entity list extended with the endpoints of `e` that the state does not share: the
/// object for a state sharing the subject, the subject for one sharing the object, both
/// (by increasing input id) for the first event, nothing for a state sharing both.
pub open spec fn extend_entities_by_event(s: Seq<(u64, u64)>, e: UniversalMatchEvent, fi: FilterInfo) -> Option<
    Seq<(u64, u64)>,
> {
    let subject = (e.subject_id, e.matched.subject.id as u64);
    let object = (e.object_id, e.matched.object.id as u64);
    match fi {
        FilterInfo::Subject { .. } => extend_entities_list(s, object.0, object.1),
        FilterInfo::Object { .. } => extend_entities_list(s, subject.0, subject.1),
        FilterInfo::MatchOrdOnly { .. } => Some(
            if e.subject_id < e.object_id {
                seq![subject, object]
            } else {
                seq![object, subject]
            },
        ),
        _ => Some(s),
    }
}

/// The entities of `s` after those of the input event of `m` join them under the filter `fi`,
/// as [extend_entities_by_event] says of the event that `m` alone makes.
pub open spec fn entities_after(s: Seq<(u64, u64)>, m: PartialMatchEvent, fi: FilterInfo) -> Option<Seq<(u64, u64)>> {
    let subject = (m.input_event.subject_id, m.matched.subject.id as u64);
    let object = (m.input_event.object_id, m.matched.object.id as u64);
    match fi {
        FilterInfo::Subject { .. } => extend_entities_list(s, object.0, object.1),
        FilterInfo::Object { .. } => extend_entities_list(s, subject.0, subject.1),
        FilterInfo::MatchOrdOnly { .. } => Some(
            if m.input_event.subject_id < m.input_event.object_id {
                seq![subject, object]
            } else {
                seq![object, subject]
            },
        ),
        _ => Some(s),
    }
}

/// The input entity `id` is bound in `s`.
pub open spec fn entity_bound(s: Seq<(u64, u64)>, id: u64) -> bool {
    exists|k: int| 0 <= k < s.len() && s[k].0 == id
}

/// What taking an event with endpoints `subject` and `object` (input entity, pattern entity)
/// under the filter `fi` makes of the sorted entity list `s`: a state that shares one endpoint
/// binds the other one, refusing it when its input entity is already bound, and keeps every
/// input entity bound once; the first state binds both endpoints; a state that shares both, or
/// none, keeps the list.
pub open spec fn takes_entities(
    s: Seq<(u64, u64)>,
    subject: (u64, u64),
    object: (u64, u64),
    fi: FilterInfo,
    res: Option<Seq<(u64, u64)>>,
) -> bool {
    match fi {
        FilterInfo::Subject { .. } => keys_sorted(s) ==> {
            &&& res is None <==> entity_bound(s, object.0)
            &&& res matches Some(v) ==> v.to_set() == s.to_set().insert(object) && keys_sorted(v)
        },
        FilterInfo::Object { .. } => keys_sorted(s) ==> {
            &&& res is None <==> entity_bound(s, subject.0)
            &&& res matches Some(v) ==> v.to_set() == s.to_set().insert(subject) && keys_sorted(v)
        },
        FilterInfo::MatchOrdOnly { .. } => res matches Some(v) && v.to_set() == set![subject, object] && (subject.0
            != object.0 ==> keys_sorted(v)),
        _ => res == Some(s),
    }
}

proof fn lemma_insert_pos_exists(s: Seq<(u64, u64)>, id: u64)
    requires
        keys_sorted(s),
    ensures
        is_insert_pos(s, id, insert_pos(s, id)),
    decreases s.len(),
{
    if s.len() == 0 {
        lemma_insert_pos(s, id, 0);
    } else if s.last().0 < id {
        assert forall|i: int| 0 <= i < s.len() implies #[trigger] s[i].0 < id by {
            if i < s.len() - 1 {
                assert(s[i].0 < s[s.len() - 1].0);
            }
        }
        lemma_insert_pos(s, id, s.len() as int);
    } else {
        let t = s.drop_last();
        lemma_insert_pos_exists(t, id);
        let q = insert_pos(t, id);
        assert forall|i: int| 0 <= i < q implies #[trigger] s[i].0 < id by {
            assert(s[i] == t[i]);
        }
        if q < t.len() {
            assert(s[q] == t[q]);
        }
        lemma_insert_pos(s, id, q);
    }
}

/// Binding `(id, pattern_id)` in a sorted entity list: refused exactly when `id` is bound;
/// otherwise the list gains that pair alone and stays sorted.
pub proof fn lemma_extend_list(s: Seq<(u64, u64)>, id: u64, pattern_id: u64)
    requires
        keys_sorted(s),
    ensures
        extend_entities_list(s, id, pattern_id) is None <==> entity_bound(s, id),
        extend_entities_list(s, id, pattern_id) matches Some(v) ==> v.to_set() == s.to_set().insert((id, pattern_id))
            && keys_sorted(v),
{
    lemma_insert_pos_exists(s, id);
    let p = insert_pos(s, id);
    if entity_bound(s, id) {
        let k = choose|k: int| 0 <= k < s.len() && s[k].0 == id;
        if k != p {
            if k < p {
                assert(s[k].0 < id);
            } else {
                assert(s[p].0 < s[k].0);
            }
        }
    }
    if !(p < s.len() && s[p].0 == id) {
        let x = (id, pattern_id);
        let v = s.insert(p, x);
        assert forall|y: (u64, u64)| v.to_set().contains(y) <==> s.to_set().insert(x).contains(y) by {
            if v.contains(y) {
                let k = choose|k: int| 0 <= k < v.len() && v[k] == y;
                if k < p {
                    assert(s[k] == y);
                } else if k > p {
                    assert(s[k - 1] == y);
                }
            }
            if s.contains(y) {
                let k = choose|k: int| 0 <= k < s.len() && s[k] == y;
                if k < p {
                    assert(v[k] == y);
                } else {
                    assert(v[k + 1] == y);
                }
            }
            if y == x {
                assert(v[p] == y);
            }
        }
        assert(v.to_set() =~= s.to_set().insert(x));
        assert forall|i: int, j: int| 0 <= i < j < v.len() implies v[i].0 < v[j].0 by {
            if j < p {
                assert(v[i] == s[i] && v[j] == s[j]);
            } else if j == p {
                if i < p {
                    assert(v[i] == s[i]);
                }
            } else if i < p {
                assert(v[i] == s[i] && v[j] == s[j - 1]);
                assert(s[i].0 < id);
                assert(s[p].0 > id);
                if j - 1 > p {
                    assert(s[p].0 < s[j - 1].0);
                }
            } else if i == p {
                assert(v[j] == s[j - 1]);
                assert(s[p].0 > id);
                if j - 1 > p {
                    assert(s[p].0 < s[j - 1].0);
                }
            } else {
                assert(v[i] == s[i - 1] && v[j] == s[j - 1]);
            }
        }
    }
}

/// The entities after an instance takes the input event of `m` under the filter `fi`, as a
/// sorted list: the endpoint the state does not share is bound, refused when already bound.
pub proof fn lemma_entities_after(s: Seq<(u64, u64)>, m: PartialMatchEvent, fi: FilterInfo)
    ensures
        takes_entities(
            s,
            (m.input_event.subject_id, m.matched.subject.id as u64),
            (m.input_event.object_id, m.matched.object.id as u64),
            fi,
            entities_after(s, m, fi),
        ),
{
    let subject = (m.input_event.subject_id, m.matched.subject.id as u64);
    let object = (m.input_event.object_id, m.matched.object.id as u64);
    match fi {
        FilterInfo::Subject { .. } => {
            if keys_sorted(s) {
                lemma_extend_list(s, object.0, object.1);
            }
        },
        FilterInfo::Object { .. } => {
            if keys_sorted(s) {
                lemma_extend_list(s, subject.0, subject.1);
            }
        },
        FilterInfo::MatchOrdOnly { .. } => {
            let v = entities_after(s, m, fi)->0;
            assert(v.to_set() =~= set![subject, object]) by {
                assert forall|y: (u64, u64)| v.to_set().contains(y) <==> set![subject, object].contains(y) by {
                    if y == subject || y == object {
                        if v[0] == y {
                        } else {
                            assert(v[1] == y);
                        }
                    }
                    if v.contains(y) {
                        let k = choose|k: int| 0 <= k < v.len() && v[k] == y;
                    }
                }
            }
        },
        _ => {},
    }
}

/// The entities after an instance takes the match event `e` under the filter `fi`, as a sorted
/// list: the endpoint the state does not share is bound, refused when already bound.
pub proof fn lemma_extend_by_event(s: Seq<(u64, u64)>, e: UniversalMatchEvent, fi: FilterInfo)
    ensures
        takes_entities(
            s,
            (e.subject_id, e.matched.subject.id as u64),
            (e.object_id, e.matched.object.id as u64),
            fi,
            extend_entities_by_event(s, e, fi),
        ),
{
    let subject = (e.subject_id, e.matched.subject.id as u64);
    let object = (e.object_id, e.matched.object.id as u64);
    match fi {
        FilterInfo::Subject { .. } => {
            if keys_sorted(s) {
                lemma_extend_list(s, object.0, object.1);
            }
        },
        FilterInfo::Object { .. } => {
            if keys_sorted(s) {
                lemma_extend_list(s, subject.0, subject.1);
            }
        },
        FilterInfo::MatchOrdOnly { .. } => {
            let v = extend_entities_by_event(s, e, fi)->0;
            assert(v.to_set() =~= set![subject, object]) by {
                assert forall|y: (u64, u64)| v.to_set().contains(y) <==> set![subject, object].contains(y) by {
                    if y == subject || y == object {
                        if v[0] == y {
                        } else {
                            assert(v[1] == y);
                        }
                    }
                    if v.contains(y) {
                        let k = choose|k: int| 0 <= k < v.len() && v[k] == y;
                    }
                }
            }
        },
        _ => {},
    }
}

/// A copy of `inst` can take the event of `m` under the filter `fi`: no input event twice, and
/// the entities fit.
pub open spec fn extends_cleanly(inst: MatchInstance, m: PartialMatchEvent, fi: FilterInfo) -> bool {
    &&& (inst.event_ids@ + seq![m.input_event.event_id]).no_duplicates()
    &&& entities_after(inst.match_entities@, m, fi) is Some
}

/// `r` holds what `inst` holds with the event of `m` added under the filter `fi`.
pub open spec fn extended_copy(r: MatchInstance, inst: MatchInstance, m: PartialMatchEvent, fi: FilterInfo) -> bool {
    &&& sorted_values_of(r.event_ids@, inst.event_ids@ + seq![m.input_event.event_id])
    &&& entities_after(inst.match_entities@, m, fi) == Some(r.match_entities@)
    &&& r.start_time == min_time(inst.start_time, m.input_event.timestamp)
    &&& r.match_events@.len() == inst.match_events@.len() + 1
    &&& forall|k: int|
        0 <= k < inst.match_events@.len() ==> (#[trigger] r.match_events@[k])@ == inst.match_events@[k]@
            && r.match_events@[k].matched == inst.match_events@[k].matched
    &&& is_single_match(r.match_events@.last(), m)
}

/// Adds the entities of `event` to `match_entities`, as [extend_entities_by_event] says.
pub fn dup_extend_entities_by_event(
    match_entities: &[(u64, u64)],
    event: &UniversalMatchEvent,
    filter_info: &FilterInfo,
) -> (res: Option<Vec<(u64, u64)>>)
    ensures
        match res {
            Some(v) => extend_entities_by_event(match_entities@, *event, *filter_info) == Some(v@),
            None => extend_entities_by_event(match_entities@, *event, *filter_info) is None,
        },
        takes_entities(
            match_entities@,
            (event.subject_id, event.matched.subject.id as u64),
            (event.object_id, event.matched.object.id as u64),
            *filter_info,
            match res {
                Some(v) => Some(v@),
                None => None,
            },
        ),
{
    proof {
        lemma_extend_by_event(match_entities@, *event, *filter_info);
    }
    let subject = (event.subject_id, event.matched.subject.id as u64);
    let object = (event.object_id, event.matched.object.id as u64);
    match filter_info {
        FilterInfo::Subject { .. } => dup_extend_entities_list(match_entities, object.0, object.1),
        FilterInfo::Object { .. } => dup_extend_entities_list(match_entities, subject.0, subject.1),
        FilterInfo::MatchOrdOnly { .. } => {
            let mut v: Vec<(u64, u64)> = Vec::new();
            if event.subject_id < event.object_id {
                v.push(subject);
                v.push(object);
                assert(v@ =~= seq![subject, object]);
            } else {
                v.push(object);
                v.push(subject);
                assert(v@ =~= seq![object, subject]);
            }
            Some(v)
        },
        _ => Some(copy_pairs(match_entities)),
    }
}

/// What a match instance asks of the runner after seeing an input event.
#[derive(Debug)]
pub enum InstanceAction<'p> {
    Remain,
    MoveInstance { new_state_id: u32 },
    NewInstance { new_state_id: u32, new_event: UniversalMatchEvent<'p> },
}

/// A partial match of a sub-pattern, waiting in a state of the state table.
#[derive(Debug)]
pub struct MatchInstance<'p> {
    pub start_time: u64,
    pub match_events: Vec<UniversalMatchEvent<'p>>,
    /// Sorted array of `(input entity id, pattern entity id)`.
    ///
    /// `match_entities.len()` == number of entities in this sub-pattern match.
    pub match_entities: Vec<(u64, u64)>,
    pub event_ids: Vec<u64>,
    pub state_id: u32,
    pub state_data: StateData,
}

/// The smaller of two timestamps.
pub open spec fn min_time(a: u64, b: u64) -> u64 {
    if a <= b {
        a
    } else {
        b
    }
}

/// Copies a list of match events.
fn copy_match_events<'p>(s: &[UniversalMatchEvent<'p>]) -> (res: Vec<UniversalMatchEvent<'p>>)
    ensures
        res@.len() == s@.len(),
        forall|k: int| 0 <= k < s@.len() ==> (#[trigger] res@[k])@ == s@[k]@ && res@[k].matched == s@[k].matched,
{
    let mut res: Vec<UniversalMatchEvent<'p>> = Vec::new();
    let mut i: usize = 0;
    while i < s.len()
        invariant
            i <= s@.len(),
            res@.len() == i,
            forall|k: int| 0 <= k < i ==> (#[trigger] res@[k])@ == s@[k]@ && res@[k].matched == s@[k].matched,
        decreases s@.len() - i,
    {
        res.push(s[i].clone());
        i += 1;
    }
    res
}

impl<'p> MatchInstance<'p> {
    /// Ids and entity entries are sorted, as the searches need.
    pub open spec fn well_formed(&self) -> bool {
        is_sorted(self.event_ids@) && keys_sorted(self.match_entities@)
    }

    /// An instance with nothing in it, left behind when an instance is moved out.
    pub fn dead_default() -> (res: Self)
        ensures
            res.start_time == 0,
            res.match_events@.len() == 0,
            res.match_entities@.len() == 0,
            res.event_ids@.len() == 0,
            res.state_id == 0,
            res.state_data is Dead,
            res.well_formed(),
    {
        MatchInstance {
            start_time: 0,
            match_events: Vec::new(),
            match_entities: Vec::new(),
            event_ids: Vec::new(),
            state_id: 0,
            state_data: StateData::Dead,
        }
    }

    /// Decides what to do with an input event. An event already in the instance changes
    /// nothing. An instance in a plain state asks for a copy extended with the event; one in
    /// a frequency state adds the event's id to the ids it has seen, and once it has seen as
    /// many as the frequency, closes its last match event over them and asks to move on.
    pub fn accept(&mut self, match_event: &PartialMatchEvent<'p>) -> (res: InstanceAction<'p>)
        requires
            is_sorted(old(self).event_ids@),
        ensures
            ({
                let id = match_event.input_event.event_id;
                if old(self).event_ids@.contains(id) {
                    res is Remain && *final(self) == *old(self)
                } else {
                    match old(self).state_data {
                        StateData::Default { next_state } => *final(self) == *old(self) && (res matches InstanceAction::NewInstance {
                            new_state_id,
                            new_event,
                        } && new_state_id == next_state && is_single_match(new_event, *match_event)),
                        StateData::AggFreq { next_state, frequency, current_set } => {
                            let seen = current_set@.insert(id);
                            let n = old(self).match_events@.len();
                            &&& final(self).start_time == old(self).start_time
                            &&& final(self).match_entities == old(self).match_entities
                            &&& final(self).event_ids == old(self).event_ids
                            &&& final(self).state_id == old(self).state_id
                            &&& final(self).match_events@.len() == n
                            &&& if seen.len() >= frequency && n > 0 {
                                let last = final(self).match_events@[n - 1];
                                let was = old(self).match_events@[n - 1];
                                &&& res matches InstanceAction::MoveInstance { new_state_id } && new_state_id
                                    == next_state
                                &&& forall|k: int|
                                    0 <= k < n - 1 ==> #[trigger] final(self).match_events@[k]
                                        == old(self).match_events@[k]
                                &&& last.matched == was.matched && last.start_time == was.start_time
                                &&& last.subject_id == was.subject_id && last.object_id == was.object_id
                                &&& last.end_time == match_event.input_event.timestamp
                                &&& strictly_ascending(last.event_ids@)
                                &&& forall|y: u64| #[trigger] last.event_ids@.contains(y) <==> seen.contains(y)
                                &&& final(self).state_data matches StateData::AggFreq {
                                    next_state: a,
                                    frequency: b,
                                    current_set: c,
                                } && a == next_state && b == frequency && c@ == Set::<u64>::empty()
                            } else {
                                &&& (if seen.len() >= frequency {
                                    res matches InstanceAction::MoveInstance { new_state_id } && new_state_id
                                        == next_state
                                } else {
                                    res is Remain
                                })
                                &&& final(self).match_events == old(self).match_events
                                &&& final(self).state_data matches StateData::AggFreq {
                                    next_state: a,
                                    frequency: b,
                                    current_set: c,
                                } && a == next_state && b == frequency && c@ == seen
                            }
                        },
                        _ => res is Remain && *final(self) == *old(self),
                    }
                }
            }),
    {
        let id = match_event.input_event.event_id;
        if sorted_contains(&self.event_ids, id) {
            return InstanceAction::Remain;
        }
        match &self.state_data {
            StateData::Default { next_state } => {
                return InstanceAction::NewInstance {
                    new_state_id: *next_state,
                    new_event: UniversalMatchEvent::from_partial(match_event),
                };
            },
            StateData::AggFreq { .. } => {},
            _ => {
                return InstanceAction::Remain;
            },
        }
        let mut data = StateData::Dead;
        std::mem::swap(&mut data, &mut self.state_data);
        match data {
            StateData::AggFreq { next_state, frequency, mut current_set } => {
                current_set.insert(id);
                if current_set.len() >= frequency as usize {
                    let n = self.match_events.len();
                    if n > 0 {
                        let ids = sorted_ids_of(&current_set);
                        self.match_events[n - 1].end_time = match_event.input_event.timestamp;
                        self.match_events[n - 1].event_ids = ids;
                        current_set = HashSet::new();
                    }
                    self.state_data = StateData::AggFreq { next_state, frequency, current_set };
                    InstanceAction::MoveInstance { new_state_id: next_state }
                } else {
                    self.state_data = StateData::AggFreq { next_state, frequency, current_set };
                    InstanceAction::Remain
                }
            },
            other => {
                self.state_data = other;
                InstanceAction::Remain
            },
        }
    }

    /// A copy of the instance extended with `new_event`; `None` when an input event of it is
    /// already in the instance, or when its entities clash with the instance's.
    pub fn clone_extend(&self, new_event: UniversalMatchEvent<'p>, filter_info: &FilterInfo) -> (res: Option<Self>)
        ensures
            match res {
                Some(r) => {
                    &&& (self.event_ids@ + new_event.event_ids@).no_duplicates()
                    &&& sorted_values_of(r.event_ids@, self.event_ids@ + new_event.event_ids@)
                    &&& extend_entities_by_event(self.match_entities@, new_event, *filter_info) == Some(
                        r.match_entities@,
                    )
                    &&& r.start_time == min_time(self.start_time, new_event.start_time)
                    &&& r.match_events@.len() == self.match_events@.len() + 1
                    &&& forall|k: int|
                        0 <= k < self.match_events@.len() ==> (#[trigger] r.match_events@[k])@
                            == self.match_events@[k]@ && r.match_events@[k].matched
                            == self.match_events@[k].matched
                    &&& r.match_events@.last() == new_event
                    &&& r.state_id == self.state_id
                    &&& same_state(r.state_data, self.state_data)
                },
                None => !(self.event_ids@ + new_event.event_ids@).no_duplicates() || extend_entities_by_event(
                    self.match_entities@,
                    new_event,
                    *filter_info,
                ) is None,
            },
    {
        let event_ids = match dup_extend_event_ids(&self.event_ids, &new_event.event_ids) {
            Some(ids) => ids,
            None => {
                return None;
            },
        };
        let match_entities = match dup_extend_entities_by_event(&self.match_entities, &new_event, filter_info) {
            Some(entities) => entities,
            None => {
                return None;
            },
        };
        let start_time = if self.start_time <= new_event.start_time {
            self.start_time
        } else {
            new_event.start_time
        };
        let mut match_events = copy_match_events(&self.match_events);
        match_events.push(new_event);
        Some(
            MatchInstance {
                start_time,
                match_events,
                match_entities,
                event_ids,
                state_id: self.state_id,
                state_data: copy_state_data(&self.state_data),
            },
        )
    }

    /// The instance of the join layer that this one stands for, its input events taken from
    /// `inputs`; `None` when a match event cannot be converted.
    pub fn to_join_instance(&self, inputs: &HashMap<u64, Rc<InputEvent>>) -> (res: Option<
        crate::process_layers::composition_layer::match_instance::MatchInstance,
    >)
        ensures
            res is Some <==> forall|k: int|
                0 <= k < self.match_events@.len() ==> convertible(#[trigger] self.match_events@[k], inputs@),
            res matches Some(r) ==> {
                &&& r.start_time == self.start_time
                &&& r.match_entities@ == self.match_entities@
                &&& r.event_ids@ == self.event_ids@
                &&& r.state_id == self.state_id
                &&& r.match_events@.len() == self.match_events@.len()
                &&& forall|k: int|
                    0 <= k < self.match_events@.len() ==> converted(
                        #[trigger] r.match_events@[k],
                        self.match_events@[k],
                        inputs@,
                    )
            },
    {
        let mut match_events: Vec<MatchEvent> = Vec::new();
        let mut k: usize = 0;
        while k < self.match_events.len()
            invariant
                k <= self.match_events@.len(),
                match_events@.len() == k,
                forall|t: int| 0 <= t < k ==> convertible(#[trigger] self.match_events@[t], inputs@),
                forall|t: int| 0 <= t < k ==> converted(#[trigger] match_events@[t], self.match_events@[t], inputs@),
            decreases self.match_events@.len() - k,
        {
            match to_match_event(&self.match_events[k], inputs) {
                Some(m) => match_events.push(m),
                None => {
                    return None;
                },
            }
            k += 1;
        }
        Some(
            crate::process_layers::composition_layer::match_instance::MatchInstance {
                start_time: self.start_time,
                match_events,
                match_entities: copy_pairs(&self.match_entities),
                event_ids: copy_u64s(&self.event_ids),
                state_id: self.state_id,
            },
        )
    }

    /// Return true if the input event is already in this instance.
    pub fn contains_event(&self, input_event_id: u64) -> (res: bool)
        requires
            is_sorted(self.event_ids@),
        ensures
            res == self.event_ids@.contains(input_event_id),
    {
        sorted_contains(&self.event_ids, input_event_id)
    }

    /// Return true if adding this (`entity_id`, `pattern_id`) pair to this match instance would
    /// result in entity collision: the same input entity matching different pattern entities.
    pub fn conflict_with_entity(&self, entity_id: u64, pattern_id: u64) -> (res: bool)
        requires
            keys_sorted(self.match_entities@),
        ensures
            res == exists|i: int|
                0 <= i < self.match_entities@.len() && #[trigger] self.match_entities@[i].0 == entity_id
                    && self.match_entities@[i].1 != pattern_id,
    {
        match find_entity(&self.match_entities, entity_id) {
            Some(index) => {
                proof {
                    assert forall|i: int|
                        0 <= i < self.match_entities@.len() && #[trigger] self.match_entities@[i].0
                            == entity_id implies i == index by {
                        if i < index {
                            assert(self.match_entities@[i].0 < self.match_entities@[index as int].0);
                        } else if i > index {
                            assert(self.match_entities@[index as int].0 < self.match_entities@[i].0);
                        }
                    }
                }
                self.match_entities[index].1 != pattern_id
            },
            None => false,
        }
    }
}

} // verus!
