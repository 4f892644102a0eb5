use vstd::prelude::*;
use std::collections::HashSet;
use crate::pattern::SubPattern;
use crate::process_layers::compo_layer::filter::{Filter, FilterInfo};
use crate::process_layers::compo_layer::match_instance::{extended_copy, extends_cleanly, InstanceAction, MatchInstance};
use crate::process_layers::composition_layer::entity_encode::EntityEncode;
use crate::process_layers::composition_layer::match_instance::strictly_ascending;
use crate::process_layers::composition_layer::state::{StateData, StateInfo};
use crate::process_layers::composition_layer::state_table::{event_count, state_rows, StateTable};
use crate::process_layers::join_layer::sub_pattern_match::is_sorted;
use crate::process_layers::matching_layer::PartialMatchEvent;
use crate::universal_match_event::UniversalMatchEvent;

verus! {

broadcast use vstd::std_specs::hash::group_hash_axioms;

/// The filter info of a row of the state table, by match order.
pub open spec fn row_filter_info(
    fi: crate::process_layers::composition_layer::filter::FilterInfo,
) -> FilterInfo {
    match fi {
        crate::process_layers::composition_layer::filter::FilterInfo::NoFilter => FilterInfo::NoFilter,
        crate::process_layers::composition_layer::filter::FilterInfo::MatchIdxOnly {
            match_idx,
        } => FilterInfo::MatchOrdOnly { match_ord: match_idx },
        crate::process_layers::composition_layer::filter::FilterInfo::Subject {
            match_idx,
            subject,
        } => FilterInfo::Subject { match_ord: match_idx, subject },
        crate::process_layers::composition_layer::filter::FilterInfo::Object {
            match_idx,
            object,
        } => FilterInfo::Object { match_ord: match_idx, object },
        crate::process_layers::composition_layer::filter::FilterInfo::Endpoints {
            match_idx,
            subject,
            object,
        } => FilterInfo::Endpoints { match_ord: match_idx, subject, object },
    }
}

fn convert_filter_info(fi: crate::process_layers::composition_layer::filter::FilterInfo) -> (res:
    FilterInfo)
    ensures
        res == row_filter_info(fi),
{
    match fi {
        crate::process_layers::composition_layer::filter::FilterInfo::NoFilter => FilterInfo::NoFilter,
        crate::process_layers::composition_layer::filter::FilterInfo::MatchIdxOnly {
            match_idx,
        } => FilterInfo::MatchOrdOnly { match_ord: match_idx },
        crate::process_layers::composition_layer::filter::FilterInfo::Subject {
            match_idx,
            subject,
        } => FilterInfo::Subject { match_ord: match_idx, subject },
        crate::process_layers::composition_layer::filter::FilterInfo::Object {
            match_idx,
            object,
        } => FilterInfo::Object { match_ord: match_idx, object },
        crate::process_layers::composition_layer::filter::FilterInfo::Endpoints {
            match_idx,
            subject,
            object,
        } => FilterInfo::Endpoints { match_ord: match_idx, subject, object },
    }
}

/// The state table of a decomposition, with filters by match order: for each sub-pattern,
/// the states of its events in order, then an output state.
pub open spec fn runner_rows(sps: Seq<SubPattern>) -> Seq<(StateInfo, FilterInfo)> {
    state_rows(sps).map_values(
        |r: (StateInfo, crate::process_layers::composition_layer::filter::FilterInfo)|
            (r.0, row_filter_info(r.1)),
    )
}

/// The filter reads its entities from the first `n` match events, and is not empty.
pub open spec fn filter_fits(fi: FilterInfo, n: nat) -> bool {
    match fi {
        FilterInfo::NoFilter => false,
        FilterInfo::MatchOrdOnly { .. } => true,
        FilterInfo::Subject { subject, .. } => subject.index_of() < n,
        FilterInfo::Object { object, .. } => object.index_of() < n,
        FilterInfo::Endpoints { subject, object, .. } => subject.index_of() < n && object.index_of()
            < n,
    }
}

/// An instance with `n` match events can be placed in `state`.
pub open spec fn placeable(table: Seq<(StateInfo, FilterInfo)>, state: u32, n: nat) -> bool {
    &&& state < table.len()
    &&& (table[state as int].0 is Output || filter_fits(table[state as int].1, n))
}

/// The input entity that `code` names among the match events.
pub open spec fn entity_at(code: EntityEncode, evs: Seq<UniversalMatchEvent>) -> u64 {
    code.pick((evs[code.index_of() as int].subject_id, evs[code.index_of() as int].object_id))
}

/// The filter that `fi` builds from the match events.
pub open spec fn filter_of(fi: FilterInfo, evs: Seq<UniversalMatchEvent>) -> Filter {
    match fi {
        FilterInfo::Subject { match_ord, subject } => Filter::Subject {
            match_ord,
            subject: entity_at(subject, evs),
        },
        FilterInfo::Object { match_ord, object } => Filter::Object {
            match_ord,
            object: entity_at(object, evs),
        },
        FilterInfo::Endpoints { match_ord, subject, object } => Filter::Endpoints {
            match_ord,
            subject: entity_at(subject, evs),
            object: entity_at(object, evs),
        },
        FilterInfo::MatchOrdOnly { match_ord } => Filter::MatchOrdOnly { match_ord },
        FilterInfo::NoFilter => Filter::MatchOrdOnly { match_ord: 0 },
    }
}

/// `d` is the data an instance gets in a state described by `info`, having `last` as the ids
/// of its last match event: a frequency state starts with those ids.
pub open spec fn entered_state(d: StateData, info: StateInfo, last: Set<u64>) -> bool {
    match info {
        StateInfo::Default { next_state } => d == StateData::Default { next_state },
        StateInfo::Output { subpattern_id } => d == StateData::Output { subpattern_id },
        StateInfo::InitFreq { next_state } => d == StateData::Default { next_state },
        StateInfo::AggFreq { next_state, frequency } => d matches StateData::AggFreq {
            next_state: n,
            frequency: f,
            current_set,
        } && n == next_state && f == frequency && current_set@ == last,
    }
}

/// The ids of the last match event, or none.
pub open spec fn last_ids(evs: Seq<UniversalMatchEvent>) -> Set<u64> {
    if evs.len() > 0 {
        evs.last().event_ids@.to_set()
    } else {
        Set::empty()
    }
}

/// Runs match instances through the states of the state table.
pub struct InstanceRunner<'p> {
    pub state_table: Vec<(StateInfo, FilterInfo)>,
    /// Instances placed in waiting states, with their filters.
    pub new_instance: Vec<(Filter, MatchInstance<'p>)>,
    pub output_buffer: Vec<(u32, MatchInstance<'p>)>,
}

impl<'p> InstanceRunner<'p> {
    /// The instances placed in a waiting state, with their filters, not yet taken.
    pub open spec fn waiting(&self) -> Seq<(Filter, MatchInstance<'p>)> {
        self.new_instance@
    }

    /// Nothing was placed between `a` and `b`.
    pub open spec fn unchanged(a: Self, b: Self) -> bool {
        &&& b.state_table@ == a.state_table@
        &&& b.output_buffer@ == a.output_buffer@
        &&& b.waiting() == a.waiting()
    }

    /// One instance was placed in `state` between `a` and `b`: in the output buffer for an
    /// output state, among the waiting instances otherwise.
    pub open spec fn placed_one(a: Self, b: Self, state: u32) -> bool {
        &&& b.state_table@ == a.state_table@
        &&& state < a.state_table@.len()
        &&& match a.state_table@[state as int].0 {
            StateInfo::Output { subpattern_id } => {
                &&& b.waiting() == a.waiting()
                &&& b.output_buffer@.len() == a.output_buffer@.len() + 1
                &&& b.output_buffer@.drop_last() == a.output_buffer@
                &&& b.output_buffer@.last().0 == subpattern_id
                &&& b.output_buffer@.last().1.state_id == state
            },
            _ => {
                &&& b.output_buffer@ == a.output_buffer@
                &&& b.waiting().len() == a.waiting().len() + 1
                &&& b.waiting().drop_last() == a.waiting()
                &&& b.waiting().last().1.state_id == state
            },
        }
    }

    /// The instance that the last placement in `state` put in `b`.
    pub open spec fn last_placed(b: Self, state: u32) -> MatchInstance<'p> {
        if b.state_table@[state as int].0 is Output {
            b.output_buffer@.last().1
        } else {
            b.waiting().last().1
        }
    }

    /// Builds the state table of `decomposition`.
    pub fn new(decomposition: &[SubPattern]) -> (res: Self)
        requires
            2 * event_count(decomposition@) + decomposition@.len() < u32::MAX,
        ensures
            res.state_table@ == runner_rows(decomposition@),
            res.waiting().len() == 0,
            res.output_buffer@.len() == 0,
    {
        let rows = StateTable::new(decomposition).table;
        let mut state_table: Vec<(StateInfo, FilterInfo)> = Vec::new();
        let mut k: usize = 0;
        while k < rows.len()
            invariant
                rows@ == state_rows(decomposition@),
                k <= rows@.len(),
                state_table@ == runner_rows(decomposition@).take(k as int),
            decreases rows@.len() - k,
        {
            let (state_info, filter_info) = rows[k];
            state_table.push((state_info, convert_filter_info(filter_info)));
            proof {
                assert(runner_rows(decomposition@).take(k + 1) =~= runner_rows(decomposition@).take(
                    k as int,
                ).push((state_info, row_filter_info(filter_info))));
            }
            k += 1;
        }
        assert(runner_rows(decomposition@).take(rows@.len() as int) =~= runner_rows(decomposition@));
        InstanceRunner { state_table, new_instance: Vec::new(), output_buffer: Vec::new() }
    }

    /// The instance can take any input event: its state is in the table, and wherever it asks
    /// to go, it can be placed.
    pub open spec fn runnable(&self, instance: MatchInstance) -> bool {
        &&& instance.state_id < self.state_table@.len()
        &&& is_sorted(instance.event_ids@)
        &&& match instance.state_data {
            StateData::Default { next_state } => placeable(
                self.state_table@,
                next_state,
                instance.match_events@.len() + 1,
            ),
            StateData::AggFreq { next_state, .. } => placeable(
                self.state_table@,
                next_state,
                instance.match_events@.len(),
            ),
            _ => true,
        }
    }

    /// Whether `runnable` holds of the instance.
    pub fn can_run(&self, instance: &MatchInstance) -> (res: bool)
        ensures
            res == self.runnable(*instance),
    {
        if instance.state_id as usize >= self.state_table.len() {
            return false;
        }
        let mut k: usize = 1;
        while k < instance.event_ids.len()
            invariant
                1 <= k,
                forall|i: int, j: int| 0 <= i <= j < k && j < instance.event_ids@.len() ==> instance.event_ids@[i]
                    <= instance.event_ids@[j],
            decreases instance.event_ids@.len() - k,
        {
            if instance.event_ids[k - 1] > instance.event_ids[k] {
                return false;
            }
            proof {
                assert forall|i: int, j: int| 0 <= i <= j < k + 1 && j < instance.event_ids@.len() implies instance.event_ids@[i]
                    <= instance.event_ids@[j] by {
                    if j == k && i < k {
                        assert(instance.event_ids@[i] <= instance.event_ids@[k - 1]);
                    }
                }
            }
            k += 1;
        }
        let n = instance.match_events.len();
        match instance.state_data {
            StateData::Default { next_state } => self.can_place(next_state, n as u128 + 1),
            StateData::AggFreq { next_state, .. } => self.can_place(next_state, n as u128),
            _ => true,
        }
    }

    /// Whether `placeable` holds of the state for an instance with `n` match events.
    fn can_place(&self, state: u32, n: u128) -> (res: bool)
        ensures
            res == placeable(self.state_table@, state, n as nat),
    {
        if state as usize >= self.state_table.len() {
            return false;
        }
        let (info, fi) = self.state_table[state as usize];
        if let StateInfo::Output { .. } = info {
            return true;
        }
        match fi {
            FilterInfo::NoFilter => false,
            FilterInfo::MatchOrdOnly { .. } => true,
            FilterInfo::Subject { subject, .. } => (subject.get_index() as u128) < n,
            FilterInfo::Object { object, .. } => (object.get_index() as u128) < n,
            FilterInfo::Endpoints { subject, object, .. } => (subject.get_index() as u128) < n && (object.get_index() as u128) < n,
        }
    }

    /// The last placement in `state` put its instance there with the data of the state and,
    /// in a waiting state, under the filter that its match events give.
    pub open spec fn entered(b: Self, state: u32) -> bool {
        let (info, fi) = b.state_table@[state as int];
        let placed = Self::last_placed(b, state);
        &&& entered_state(placed.state_data, info, last_ids(placed.match_events@))
        &&& !(info is Output) ==> b.waiting().last().0 == filter_of(fi, placed.match_events@)
    }

    /// The instance is the empty dead one that a move leaves behind.
    pub open spec fn left_dead(inst: MatchInstance) -> bool {
        &&& inst.start_time == 0
        &&& inst.match_events@.len() == 0
        &&& inst.match_entities@.len() == 0
        &&& inst.event_ids@.len() == 0
        &&& inst.state_id == 0
        &&& inst.state_data is Dead
    }

    /// `b` and `inst2` are what letting `inst` take `ev` makes of the runner `a` and of `inst`.
    /// An event already in the instance changes nothing. In a plain state, a copy extended with
    /// the event is placed in the next state when it can be made. In a frequency state the
    /// instance adds the event's id to the ids it has seen; once it has seen as many as the
    /// frequency, its last match event is closed over them, sorted, at the event's time, and
    /// it moves to the next state, leaving an empty dead instance behind.
    pub open spec fn ran(a: Self, inst: MatchInstance<'p>, ev: PartialMatchEvent<'p>, b: Self, inst2: MatchInstance<'p>) -> bool {
        let id = ev.input_event.event_id;
        if inst.event_ids@.contains(id) {
            Self::unchanged(a, b) && inst2 == inst
        } else {
            match inst.state_data {
                StateData::Default { next_state } => {
                    let fi = a.state_table@[inst.state_id as int].1;
                    &&& inst2 == inst
                    &&& if extends_cleanly(inst, ev, fi) {
                        &&& Self::placed_one(a, b, next_state)
                        &&& Self::entered(b, next_state)
                        &&& extended_copy(Self::last_placed(b, next_state), inst, ev, fi)
                    } else {
                        Self::unchanged(a, b)
                    }
                },
                StateData::AggFreq { next_state, frequency, current_set } => {
                    let seen = current_set@.insert(id);
                    if seen.len() >= frequency {
                        let placed = Self::last_placed(b, next_state);
                        let n = inst.match_events@.len();
                        &&& Self::left_dead(inst2)
                        &&& Self::placed_one(a, b, next_state)
                        &&& Self::entered(b, next_state)
                        &&& placed.start_time == inst.start_time
                        &&& placed.match_entities == inst.match_entities
                        &&& placed.event_ids == inst.event_ids
                        &&& placed.match_events@.len() == n
                        &&& n > 0 ==> {
                            let last = placed.match_events@[n - 1];
                            let was = inst.match_events@[n - 1];
                            &&& forall|k: int| 0 <= k < n - 1 ==> #[trigger] placed.match_events@[k] == inst.match_events@[k]
                            &&& last.matched == was.matched && last.start_time == was.start_time
                            &&& last.subject_id == was.subject_id && last.object_id == was.object_id
                            &&& last.end_time == ev.input_event.timestamp
                            &&& strictly_ascending(last.event_ids@)
                            &&& forall|y: u64| #[trigger] last.event_ids@.contains(y) <==> seen.contains(y)
                        }
                    } else {
                        &&& Self::unchanged(a, b)
                        &&& inst2.start_time == inst.start_time
                        &&& inst2.match_events == inst.match_events
                        &&& inst2.match_entities == inst.match_entities
                        &&& inst2.event_ids == inst.event_ids
                        &&& inst2.state_id == inst.state_id
                        &&& inst2.state_data matches StateData::AggFreq { next_state: a2, frequency: f2, current_set: c2 }
                            && a2 == next_state && f2 == frequency && c2@ == seen
                    }
                },
                _ => Self::unchanged(a, b) && inst2 == inst,
            }
        }
    }

    /// Letting `inst` take `ev` as the composition step does: an instance that cannot run is
    /// left as it is, and so is the runner.
    pub open spec fn stepped(a: Self, inst: MatchInstance<'p>, ev: PartialMatchEvent<'p>, b: Self, inst2: MatchInstance<'p>) -> bool {
        if a.runnable(inst) {
            Self::ran(a, inst, ev, b, inst2)
        } else {
            b == a && inst2 == inst
        }
    }

    /// Letting the instances `ins` take `ev` one after another takes the runner through the
    /// states `rs` and leaves `outs` of the instances.
    pub open spec fn ran_all(rs: Seq<Self>, ins: Seq<MatchInstance<'p>>, ev: PartialMatchEvent<'p>, outs: Seq<MatchInstance<'p>>) -> bool {
        &&& rs.len() == ins.len() + 1
        &&& outs.len() == ins.len()
        &&& forall|i: int| #![trigger outs[i]] 0 <= i < ins.len() ==> Self::stepped(rs[i], ins[i], ev, rs[i + 1], outs[i])
    }

    /// Lets `instance` take `match_event`, as [Self::ran] says.
    pub fn run(&mut self, instance: &mut MatchInstance<'p>, match_event: &PartialMatchEvent<'p>)
        requires
            old(self).runnable(*old(instance)),
        ensures
            Self::ran(*old(self), *old(instance), *match_event, *final(self), *final(instance)),
    {
        let ghost before = *instance;
        match instance.accept(match_event) {
            InstanceAction::NewInstance { new_state_id, new_event } => {
                let old_filter = self.state_table[instance.state_id as usize].1;
                match instance.clone_extend(new_event, &old_filter) {
                    Some(new_instance) => {
                        self.place_new_instance(new_instance, new_state_id);
                    },
                    None => {},
                }
            },
            InstanceAction::MoveInstance { new_state_id } => {
                let mut new_instance = MatchInstance::dead_default();
                std::mem::swap(&mut new_instance, instance);
                self.place_new_instance(new_instance, new_state_id);
            },
            InstanceAction::Remain => {},
        }
    }

    /// Places an instance in the state `new_state_id`: in the output buffer for an output
    /// state, among the waiting instances, under its filter, otherwise.
    fn place_new_instance(&mut self, new_instance: MatchInstance<'p>, new_state_id: u32)
        requires
            placeable(old(self).state_table@, new_state_id, new_instance.match_events@.len()),
        ensures
            Self::placed_one(*old(self), *final(self), new_state_id),
            ({
                let (info, fi) = old(self).state_table@[new_state_id as int];
                let placed = if info is Output {
                    final(self).output_buffer@.last().1
                } else {
                    final(self).waiting().last().1
                };
                &&& placed.start_time == new_instance.start_time
                &&& placed.match_events == new_instance.match_events
                &&& placed.match_entities == new_instance.match_entities
                &&& placed.event_ids == new_instance.event_ids
                &&& entered_state(placed.state_data, info, last_ids(new_instance.match_events@))
                &&& !(info is Output) ==> final(self).waiting().last().0 == filter_of(
                    fi,
                    new_instance.match_events@,
                )
            }),
    {
        let mut new_instance = new_instance;
        let (state_info, filter_info) = self.state_table[new_state_id as usize];
        let state_data = match state_info {
            StateInfo::AggFreq { next_state, frequency } => {
                let mut current_set: HashSet<u64> = HashSet::new();
                let n = new_instance.match_events.len();
                if n > 0 {
                    let ids = &new_instance.match_events[n - 1].event_ids;
                    let mut k: usize = 0;
                    while k < ids.len()
                        invariant
                            k <= ids@.len(),
                            forall|y: u64| #[trigger] current_set@.contains(y) <==> ids@.take(k as int).contains(y),
                        decreases ids@.len() - k,
                    {
                        current_set.insert(ids[k]);
                        proof {
                            assert forall|y: u64| #[trigger] current_set@.contains(y) <==> ids@.take(k + 1).contains(y) by {
                                assert(ids@.take(k + 1) =~= ids@.take(k as int).push(ids@[k as int]));
                                if ids@.take(k as int).contains(y) {
                                    let j = choose|j: int| 0 <= j < k && #[trigger] ids@.take(k as int)[j] == y;
                                    assert(ids@.take(k + 1)[j] == y);
                                }
                                if y == ids@[k as int] {
                                    assert(ids@.take(k + 1)[k as int] == y);
                                }
                                if ids@.take(k + 1).contains(y) && y != ids@[k as int] {
                                    let j = choose|j: int| 0 <= j < k + 1 && #[trigger] ids@.take(k + 1)[j] == y;
                                    assert(ids@.take(k as int)[j] == y);
                                }
                            }
                        }
                        k += 1;
                    }
                    proof {
                        assert(ids@.take(ids@.len() as int) =~= ids@);
                        assert(current_set@ =~= ids@.to_set());
                    }
                } else {
                    assert(current_set@ =~= Set::<u64>::empty());
                }
                StateData::AggFreq { next_state, frequency, current_set }
            },
            _ => StateData::from_state_info(state_info),
        };
        new_instance.state_data = state_data;
        new_instance.state_id = new_state_id;
        let ghost out0 = self.output_buffer@;
        let ghost wait0 = self.new_instance@;
        match state_info {
            StateInfo::Output { subpattern_id } => {
                self.output_buffer.push((subpattern_id, new_instance));
                assert(self.output_buffer@.drop_last() =~= out0);
            },
            _ => {
                let filter = Self::extract_filter(&new_instance, filter_info);
                self.new_instance.push((filter, new_instance));
                assert(self.new_instance@.drop_last() =~= wait0);
            },
        }
    }

    /// Builds the filter of an instance from the entities of its match events.
    fn extract_filter(instance: &MatchInstance, filter_info: FilterInfo) -> (res: Filter)
        requires
            filter_fits(filter_info, instance.match_events@.len()),
        ensures
            res == filter_of(filter_info, instance.match_events@),
    {
        let endpoints_extractor = |e: &UniversalMatchEvent| -> (r: (u64, u64))
            ensures
                r == (e.subject_id, e.object_id),
            { (e.subject_id, e.object_id) };
        match filter_info {
            FilterInfo::MatchOrdOnly { match_ord } => Filter::MatchOrdOnly { match_ord },
            FilterInfo::Subject { match_ord, subject } => Filter::Subject {
                match_ord,
                subject: subject.get_entity_unchecked(&instance.match_events, endpoints_extractor),
            },
            FilterInfo::Object { match_ord, object } => Filter::Object {
                match_ord,
                object: object.get_entity_unchecked(&instance.match_events, endpoints_extractor),
            },
            FilterInfo::Endpoints { match_ord, subject, object } => Filter::Endpoints {
                match_ord,
                subject: subject.get_entity_unchecked(&instance.match_events, endpoints_extractor),
                object: object.get_entity_unchecked(&instance.match_events, endpoints_extractor),
            },
            FilterInfo::NoFilter => Filter::MatchOrdOnly { match_ord: 0 },
        }
    }

    /// Hands out the instances placed in waiting states, with their filters, and forgets them.
    pub fn take_new_instances(&mut self) -> (res: Vec<(Filter, MatchInstance<'p>)>)
        ensures
            res@ == old(self).waiting(),
            final(self).waiting().len() == 0,
            final(self).state_table@ == old(self).state_table@,
            final(self).output_buffer@ == old(self).output_buffer@,
    {
        let mut taken: Vec<(Filter, MatchInstance<'p>)> = Vec::new();
        std::mem::swap(&mut taken, &mut self.new_instance);
        taken
    }
}

} // verus!
