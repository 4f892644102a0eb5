use vstd::prelude::*;
use crate::process_layers::compo_layer::filter::{Filter, FilterInfo};
use crate::process_layers::compo_layer::instance_runner::{entered_state, InstanceRunner};
use crate::process_layers::compo_layer::match_instance::MatchInstance;
use crate::process_layers::composition_layer::state::{StateData, StateInfo};
use crate::process_layers::matching_layer::PartialMatchEvent;

verus! {

/// An input event of match order `match_ord`, with these endpoints, reaches the entries kept
/// under the filter `f` among the filtered instances. (The instances under a filter on the
/// match order alone are the simple ones, which the event reaches by their match order.)
pub open spec fn addressed_by(f: Filter, match_ord: usize, subject: u64, object: u64) -> bool {
    match f {
        Filter::MatchOrdOnly { .. } => false,
        Filter::Subject { match_ord: m, subject: s } => m == match_ord && s == subject,
        Filter::Object { match_ord: m, object: o } => m == match_ord && o == object,
        Filter::Endpoints { match_ord: m, subject: s, object: o } => m == match_ord && s == subject && o
            == object,
    }
}

/// The instance may still take events: it started within the window and is not dead.
pub open spec fn is_live(inst: MatchInstance, window_bound: u64) -> bool {
    inst.start_time >= window_bound && !(inst.state_data is Dead)
}

/// The event runs the instance of the entry: it addresses the entry, and the instance is live.
pub open spec fn hit<'p>(e: (Filter, MatchInstance<'p>), match_ord: usize, subject: u64, object: u64, bound: u64) -> bool {
    addressed_by(e.0, match_ord, subject, object) && is_live(e.1, bound)
}

/// The instances of the entries `s` that the event runs, in order.
pub open spec fn sweep_targets<'p>(
    s: Seq<(Filter, MatchInstance<'p>)>,
    match_ord: usize,
    subject: u64,
    object: u64,
    bound: u64,
) -> Seq<MatchInstance<'p>>
    decreases s.len(),
{
    if s.len() == 0 {
        Seq::empty()
    } else {
        let t = sweep_targets(s.drop_last(), match_ord, subject, object, bound);
        if hit(s.last(), match_ord, subject, object, bound) {
            t.push(s.last().1)
        } else {
            t
        }
    }
}

/// What the event leaves of the entries `s` when the instances it runs become `outs`, in
/// order: an entry it does not address stays as it is, an addressed live one stays under its
/// filter with its instance as the run left it, and an addressed one that left the window or
/// died is dropped.
pub open spec fn after_sweep<'p>(
    s: Seq<(Filter, MatchInstance<'p>)>,
    outs: Seq<MatchInstance<'p>>,
    match_ord: usize,
    subject: u64,
    object: u64,
    bound: u64,
) -> Seq<(Filter, MatchInstance<'p>)>
    decreases s.len(),
{
    if s.len() == 0 {
        Seq::empty()
    } else {
        let prev = s.drop_last();
        let e = s.last();
        let r = after_sweep(prev, outs, match_ord, subject, object, bound);
        if !addressed_by(e.0, match_ord, subject, object) {
            r.push(e)
        } else if is_live(e.1, bound) {
            r.push((e.0, outs[sweep_targets(prev, match_ord, subject, object, bound).len() as int]))
        } else {
            r
        }
    }
}

/// Adding an instance after those the entries `s` run changes nothing of what they leave.
proof fn lemma_after_sweep_push<'p>(
    s: Seq<(Filter, MatchInstance<'p>)>,
    outs: Seq<MatchInstance<'p>>,
    x: MatchInstance<'p>,
    match_ord: usize,
    subject: u64,
    object: u64,
    bound: u64,
)
    requires
        sweep_targets(s, match_ord, subject, object, bound).len() <= outs.len(),
    ensures
        after_sweep(s, outs.push(x), match_ord, subject, object, bound) == after_sweep(s, outs, match_ord, subject, object, bound),
    decreases s.len(),
{
    if s.len() > 0 {
        lemma_after_sweep_push(s.drop_last(), outs, x, match_ord, subject, object, bound);
    }
}

/// Position `k` of `s` holds the simple instance of match order `m`.
pub open spec fn key_at<'p>(s: Seq<(usize, MatchInstance<'p>)>, m: usize, k: int) -> bool {
    0 <= k < s.len() && s[k].0 == m
}

/// The simple instance of match order `m`, if there is one, as a sequence.
pub open spec fn simple_targets<'p>(s: Seq<(usize, MatchInstance<'p>)>, m: usize) -> Seq<MatchInstance<'p>> {
    if exists|k: int| key_at(s, m, k) {
        seq![s[choose|k: int| key_at(s, m, k)].1]
    } else {
        Seq::empty()
    }
}

/// The simple instances once the one of match order `m`, if any, became `outs[0]`.
pub open spec fn with_simple<'p>(s: Seq<(usize, MatchInstance<'p>)>, m: usize, outs: Seq<MatchInstance<'p>>) -> Seq<
    (usize, MatchInstance<'p>),
> {
    if exists|k: int| key_at(s, m, k) {
        s.update(choose|k: int| key_at(s, m, k), (m, outs[0]))
    } else {
        s
    }
}

/// The simple instances with `inst` put in for match order `m`: in place of the one there,
/// or added.
pub open spec fn put_simple<'p>(s: Seq<(usize, MatchInstance<'p>)>, m: usize, inst: MatchInstance<'p>) -> Seq<
    (usize, MatchInstance<'p>),
> {
    if exists|k: int| key_at(s, m, k) {
        s.update(choose|k: int| key_at(s, m, k), (m, inst))
    } else {
        s.push((m, inst))
    }
}

/// The simple instances once every entry of `ws` under a filter on the match order alone is
/// put in, in order.
pub open spec fn put_all<'p>(s: Seq<(usize, MatchInstance<'p>)>, ws: Seq<(Filter, MatchInstance<'p>)>) -> Seq<
    (usize, MatchInstance<'p>),
>
    decreases ws.len(),
{
    if ws.len() == 0 {
        s
    } else {
        let r = put_all(s, ws.drop_last());
        match ws.last().0 {
            Filter::MatchOrdOnly { match_ord } => put_simple(r, match_ord, ws.last().1),
            _ => r,
        }
    }
}

/// The entries of `ws` under the other filters, in order.
pub open spec fn filtered_part<'p>(ws: Seq<(Filter, MatchInstance<'p>)>) -> Seq<(Filter, MatchInstance<'p>)>
    decreases ws.len(),
{
    if ws.len() == 0 {
        Seq::empty()
    } else {
        let r = filtered_part(ws.drop_last());
        if ws.last().0 is MatchOrdOnly {
            r
        } else {
            r.push(ws.last())
        }
    }
}

/// The waiting match instances, by the filter an input event must satisfy to reach them.
pub struct InstanceStorage<'p> {
    /// The instances that wait for the first event of a sub-pattern, which shares no entity
    /// with anything before it: at most one per match order.
    pub simple_instances: Vec<(usize, MatchInstance<'p>)>,
    /// The instances that wait for an event sharing the subject, the object, or both.
    pub filtered_instances: Vec<(Filter, MatchInstance<'p>)>,
}

impl<'p> InstanceStorage<'p> {
    /// No match order has two simple instances.
    pub open spec fn well_formed(&self) -> bool {
        forall|i: int, j: int|
            0 <= i < j < self.simple_instances@.len() ==> (#[trigger] self.simple_instances@[i]).0
                != (#[trigger] self.simple_instances@[j]).0
    }

    /// An empty instance for every state waiting for the first event of a sub-pattern.
    pub fn init_from_state_table(state_table: &[(StateInfo, FilterInfo)]) -> (res: Self)
        requires
            state_table@.len() <= u32::MAX,
        ensures
            res.well_formed(),
            res.filtered_instances@.len() == 0,
            forall|k: int|
                0 <= k < res.simple_instances@.len() ==> {
                    let (m, inst) = #[trigger] res.simple_instances@[k];
                    &&& inst.state_id < state_table@.len()
                    &&& state_table@[inst.state_id as int].1 == FilterInfo::MatchOrdOnly { match_ord: m }
                    &&& entered_state(inst.state_data, state_table@[inst.state_id as int].0, Set::empty())
                    &&& inst.start_time == u64::MAX
                    &&& inst.match_events@.len() == 0
                    &&& inst.match_entities@.len() == 0
                    &&& inst.event_ids@.len() == 0
                },
            forall|s: int|
                0 <= s < state_table@.len() && (#[trigger] state_table@[s]).1 is MatchOrdOnly ==> res.key_present(
                    state_table@[s].1->MatchOrdOnly_match_ord,
                ),
    {
        let mut storage = InstanceStorage { simple_instances: Vec::new(), filtered_instances: Vec::new() };
        let mut state_id: usize = 0;
        while state_id < state_table.len()
            invariant
                state_table@.len() <= u32::MAX,
                state_id <= state_table@.len(),
                storage.well_formed(),
                storage.filtered_instances@.len() == 0,
                forall|k: int|
                    0 <= k < storage.simple_instances@.len() ==> {
                        let (m, inst) = #[trigger] storage.simple_instances@[k];
                        &&& inst.state_id < state_table@.len()
                        &&& state_table@[inst.state_id as int].1 == FilterInfo::MatchOrdOnly { match_ord: m }
                        &&& entered_state(inst.state_data, state_table@[inst.state_id as int].0, Set::empty())
                        &&& inst.start_time == u64::MAX
                        &&& inst.match_events@.len() == 0
                        &&& inst.match_entities@.len() == 0
                        &&& inst.event_ids@.len() == 0
                    },
                forall|s: int|
                    0 <= s < state_id && (#[trigger] state_table@[s]).1 is MatchOrdOnly ==> storage.key_present(
                        state_table@[s].1->MatchOrdOnly_match_ord,
                    ),
            decreases state_table@.len() - state_id,
        {
            let (state_info, filter_info) = state_table[state_id];
            if let FilterInfo::MatchOrdOnly { match_ord } = filter_info {
                let mut instance = MatchInstance::dead_default();
                instance.start_time = u64::MAX;
                instance.state_data = StateData::from_state_info(state_info);
                instance.state_id = state_id as u32;
                let ghost before = storage.simple_instances@;
                storage.insert_simple(match_ord, instance);
                proof {
                    assert forall|s: int|
                        0 <= s < state_id + 1 && (#[trigger] state_table@[s]).1 is MatchOrdOnly implies storage.key_present(
                            state_table@[s].1->MatchOrdOnly_match_ord,
                        ) by {
                        let m2 = state_table@[s].1->MatchOrdOnly_match_ord;
                        if s < state_id {
                            let k0 = choose|k: int| 0 <= k < before.len() && #[trigger] before[k].0 == m2;
                            assert(storage.key_kept(before, m2, k0));
                        }
                    }
                }
            }
            state_id += 1;
        }
        storage
    }

    /// Some simple instance has match order `m`.
    pub open spec fn key_present(&self, m: usize) -> bool {
        exists|k: int| 0 <= k < self.simple_instances@.len() && #[trigger] self.simple_instances@[k].0 == m
    }

    /// The key of `before[k0]` is still present.
    pub open spec fn key_kept(&self, before: Seq<(usize, MatchInstance<'p>)>, m: usize, k0: int) -> bool {
        0 <= k0 < before.len() && before[k0].0 == m ==> self.key_present(m)
    }

    /// Puts the instance for match order `match_ord`, replacing the one there.
    fn insert_simple(&mut self, match_ord: usize, instance: MatchInstance<'p>)
        requires
            old(self).well_formed(),
        ensures
            final(self).well_formed(),
            final(self).filtered_instances == old(self).filtered_instances,
            final(self).key_present(match_ord),
            final(self).simple_instances@ == put_simple(old(self).simple_instances@, match_ord, instance),
            forall|k: int|
                0 <= k < final(self).simple_instances@.len() ==> #[trigger] final(self).simple_instances@[k]
                    == (match_ord, instance) || (final(self).simple_instances@[k].0 != match_ord
                    && old(self).simple_instances@.contains(final(self).simple_instances@[k])),
            forall|k: int|
                0 <= k < old(self).simple_instances@.len() && #[trigger] old(self).simple_instances@[k].0 != match_ord
                    ==> final(self).simple_instances@.contains(old(self).simple_instances@[k]),
            forall|m: usize, k0: int| #[trigger] final(self).key_kept(old(self).simple_instances@, m, k0),
    {
        let ghost before = self.simple_instances@;
        let mut k: usize = 0;
        while k < self.simple_instances.len()
            invariant
                self.simple_instances@ == before,
                before == old(self).simple_instances@,
                self.filtered_instances == old(self).filtered_instances,
                forall|i: int, j: int| 0 <= i < j < before.len() ==> (#[trigger] before[i]).0 != (#[trigger] before[j]).0,
                k <= before.len(),
                forall|i: int| 0 <= i < k ==> (#[trigger] before[i]).0 != match_ord,
            decreases before.len() - k,
        {
            if self.simple_instances[k].0 == match_ord {
                self.simple_instances.set(k, (match_ord, instance));
                proof {
                    let after = self.simple_instances@;
                    assert(key_at(before, match_ord, k as int));
                    let j = choose|j: int| key_at(before, match_ord, j);
                    assert(j == k) by {
                        if j < k {
                            assert(before[j].0 != before[k as int].0);
                        } else if j > k {
                            assert(before[k as int].0 != before[j].0);
                        }
                    }
                    assert(after[k as int] == (match_ord, instance));
                    assert(after[k as int].0 == match_ord);
                    assert forall|i: int, j: int| 0 <= i < j < after.len() implies (#[trigger] after[i]).0 != (#[trigger] after[j]).0 by {
                        if i != k && j != k {
                            assert(before[i].0 != before[j].0);
                        } else if i == k {
                            assert(before[k as int].0 != before[j].0);
                        } else {
                            assert(before[i].0 != before[k as int].0);
                        }
                    }
                    assert forall|t: int| 0 <= t < after.len() implies #[trigger] after[t] == (match_ord, instance) || (
                    after[t].0 != match_ord && before.contains(after[t])) by {
                        if t != k {
                            assert(after[t] == before[t]);
                            assert(before[t].0 != before[k as int].0);
                        }
                    }
                    assert forall|t: int| 0 <= t < before.len() && #[trigger] before[t].0 != match_ord implies after.contains(before[t]) by {
                        assert(t != k);
                        assert(after[t] == before[t]);
                    }
                    assert forall|m: usize, k0: int| #[trigger] self.key_kept(before, m, k0) by {
                        if 0 <= k0 < before.len() && before[k0].0 == m {
                            if k0 == k {
                                assert(after[k as int].0 == m);
                            } else {
                                assert(after[k0] == before[k0]);
                            }
                        }
                    }
                }
                return;
            }
            k += 1;
        }
        self.simple_instances.push((match_ord, instance));
        proof {
            let after = self.simple_instances@;
            assert(!exists|j: int| key_at(before, match_ord, j));
            assert(after[before.len() as int].0 == match_ord);
            assert forall|i: int, j: int| 0 <= i < j < after.len() implies (#[trigger] after[i]).0 != (#[trigger] after[j]).0 by {
                if j < before.len() {
                    assert(after[i] == before[i] && after[j] == before[j]);
                } else {
                    assert(after[i] == before[i]);
                }
            }
            assert forall|t: int| 0 <= t < after.len() implies #[trigger] after[t] == (match_ord, instance) || (after[t].0
                != match_ord && before.contains(after[t])) by {
                if t < before.len() {
                    assert(after[t] == before[t]);
                }
            }
            assert forall|t: int| 0 <= t < before.len() && #[trigger] before[t].0 != match_ord implies after.contains(before[t]) by {
                assert(after[t] == before[t]);
            }
            assert forall|m: usize, k0: int| #[trigger] self.key_kept(before, m, k0) by {
                if 0 <= k0 < before.len() && before[k0].0 == m {
                    assert(after[k0] == before[k0]);
                }
            }
        }
    }

    /// Stores an instance under its filter: in place of the simple instance of its match order
    /// for a filter on the match order alone.
    pub fn store(&mut self, filter: Filter, instance: MatchInstance<'p>)
        requires
            old(self).well_formed(),
        ensures
            final(self).well_formed(),
            match filter {
                Filter::MatchOrdOnly { match_ord } => {
                    &&& final(self).filtered_instances == old(self).filtered_instances
                    &&& final(self).key_present(match_ord)
                    &&& final(self).simple_instances@ == put_simple(old(self).simple_instances@, match_ord, instance)
                },
                _ => {
                    &&& final(self).simple_instances == old(self).simple_instances
                    &&& final(self).filtered_instances@ == old(self).filtered_instances@.push((filter, instance))
                },
            },
    {
        match filter {
            Filter::MatchOrdOnly { match_ord } => self.insert_simple(match_ord, instance),
            _ => self.filtered_instances.push((filter, instance)),
        }
    }
}

/// The composition step: match instances waiting in storage take the match events of the
/// input, and complete ones come out of the runner's output buffer.
pub struct CompoLayer<'p> {
    pub window_size: u64,
    pub runner: InstanceRunner<'p>,
    pub storage: InstanceStorage<'p>,
}

impl<'p> CompoLayer<'p> {
    /// The layer over a runner, with storage holding an empty instance for the first event of
    /// every sub-pattern.
    pub fn new(runner: InstanceRunner<'p>, window_size: u64) -> (res: Self)
        requires
            runner.state_table@.len() <= u32::MAX,
        ensures
            res.window_size == window_size,
            res.runner == runner,
            res.storage.well_formed(),
            res.storage.filtered_instances@.len() == 0,
            forall|k: int|
                0 <= k < res.storage.simple_instances@.len() ==> {
                    let (m, inst) = #[trigger] res.storage.simple_instances@[k];
                    &&& inst.state_id < runner.state_table@.len()
                    &&& runner.state_table@[inst.state_id as int].1 == FilterInfo::MatchOrdOnly { match_ord: m }
                    &&& entered_state(inst.state_data, runner.state_table@[inst.state_id as int].0, Set::empty())
                    &&& inst.start_time == u64::MAX
                    &&& inst.match_events@.len() == 0
                    &&& inst.match_entities@.len() == 0
                    &&& inst.event_ids@.len() == 0
                },
            forall|s: int|
                0 <= s < runner.state_table@.len() && (#[trigger] runner.state_table@[s]).1 is MatchOrdOnly
                    ==> res.storage.key_present(runner.state_table@[s].1->MatchOrdOnly_match_ord),
    {
        let storage = InstanceStorage::init_from_state_table(runner.state_table.as_slice());
        CompoLayer { window_size, runner, storage }
    }

    /// The layer `b` is what `a` becomes when the match event `ev` comes, the runner going
    /// through the states `rs` and the instances that run becoming `outs`: the simple instance
    /// of the event's match order, if any, then every live filtered instance the event
    /// addresses, in order, run; what they output is in the output buffer, and the instances
    /// they placed in waiting states are stored.
    pub open spec fn accepted(a: Self, b: Self, ev: PartialMatchEvent<'p>, rs: Seq<InstanceRunner<'p>>, outs: Seq<MatchInstance<'p>>) -> bool {
        let ts = ev.input_event.timestamp;
        let bound = if ts >= a.window_size { (ts - a.window_size) as u64 } else { 0 };
        let m = ev.match_ord;
        let sub = ev.input_event.subject_id;
        let obj = ev.input_event.object_id;
        let st = simple_targets(a.storage.simple_instances@, m);
        let ins = st + sweep_targets(a.storage.filtered_instances@, m, sub, obj, bound);
        &&& InstanceRunner::ran_all(rs, ins, ev, outs)
        &&& rs[0] == a.runner
        &&& b.runner.output_buffer@ == rs.last().output_buffer@
        &&& b.storage.simple_instances@ == put_all(with_simple(a.storage.simple_instances@, m, outs), rs.last().waiting())
        &&& b.storage.filtered_instances@ == after_sweep(
            a.storage.filtered_instances@,
            outs.skip(st.len() as int),
            m,
            sub,
            obj,
            bound,
        ) + filtered_part(rs.last().waiting())
    }

    /// Lets the simple instance of the event's match order take the match event, then every
    /// live filtered instance that the event addresses, in order; drops the addressed filtered
    /// instances that left the window or died, and stores the instances that the runs placed
    /// in waiting states. An instance that cannot run (its state or its next state outside the
    /// table) is left as it is.
    pub fn accept_match_event(&mut self, match_event: &PartialMatchEvent<'p>)
        requires
            old(self).storage.well_formed(),
        ensures
            final(self).storage.well_formed(),
            final(self).window_size == old(self).window_size,
            final(self).runner.state_table@ == old(self).runner.state_table@,
            final(self).runner.new_instance@.len() == 0,
            exists|rs: Seq<InstanceRunner<'p>>, outs: Seq<MatchInstance<'p>>| #[trigger] Self::accepted(
                *old(self),
                *final(self),
                *match_event,
                rs,
                outs,
            ),
    {
        let match_ord = match_event.match_ord;
        let subject_id = match_event.input_event.subject_id;
        let object_id = match_event.input_event.object_id;
        let window_bound = if match_event.input_event.timestamp >= self.window_size {
            match_event.input_event.timestamp - self.window_size
        } else {
            0
        };
        let ghost ev = *match_event;
        let ghost old_filtered = self.storage.filtered_instances@;
        let ghost simple0 = self.storage.simple_instances@;
        let ghost table = self.runner.state_table@;
        let ghost mut rs: Seq<InstanceRunner<'p>> = seq![self.runner];
        let ghost mut outs: Seq<MatchInstance<'p>> = Seq::empty();
        let ghost st = simple_targets(simple0, match_ord);
        // the simple instance of this match order
        let mut k: usize = 0;
        while k < self.storage.simple_instances.len() && self.storage.simple_instances[k].0 != match_ord
            invariant
                self.storage.simple_instances@ == simple0,
                k <= simple0.len(),
                forall|i: int| 0 <= i < k ==> #[trigger] simple0[i].0 != match_ord,
            decreases simple0.len() - k,
        {
            k += 1;
        }
        if k < self.storage.simple_instances.len() {
            let (m, mut instance) = self.storage.simple_instances.remove(k);
            let ghost r0 = self.runner;
            let ghost i0 = instance;
            if self.runner.can_run(&instance) {
                self.runner.run(&mut instance, match_event);
            }
            proof {
                assert(InstanceRunner::stepped(r0, i0, ev, self.runner, instance));
                assert(key_at(simple0, match_ord, k as int));
                let j = choose|j: int| key_at(simple0, match_ord, j);
                assert(j == k) by {
                    if j < k {
                        assert(simple0[j].0 != simple0[k as int].0);
                    } else if j > k {
                        assert(simple0[k as int].0 != simple0[j].0);
                    }
                }
                assert(st == seq![i0]);
                rs = rs.push(self.runner);
                outs = outs.push(instance);
                assert(InstanceRunner::ran_all(rs, st, ev, outs)) by {
                    assert(outs[0] == instance);
                }
            }
            self.storage.simple_instances.insert(k, (m, instance));
            proof {
                let after = self.storage.simple_instances@;
                assert(after =~= simple0.update(k as int, (m, instance)));
                assert(after == with_simple(simple0, match_ord, outs));
                assert forall|i: int, j: int| 0 <= i < j < after.len() implies (#[trigger] after[i]).0 != (#[trigger] after[j]).0 by {
                    assert(after[i].0 == simple0[i].0);
                    assert(after[j].0 == simple0[j].0);
                }
            }
        } else {
            proof {
                assert(!exists|j: int| key_at(simple0, match_ord, j));
                assert(st =~= Seq::<MatchInstance<'p>>::empty());
                assert(self.storage.simple_instances@ == with_simple(simple0, match_ord, outs));
            }
        }
        let ghost simple_mid = self.storage.simple_instances@;
        let ghost outs_s = outs;
        assert(self.runner.state_table@ == table);
        // the filtered instances this event addresses
        let mut taken: Vec<(Filter, MatchInstance<'p>)> = Vec::new();
        std::mem::swap(&mut taken, &mut self.storage.filtered_instances);
        let ghost all = taken@;
        let ghost mut fouts: Seq<MatchInstance<'p>> = Seq::empty();
        let mut kept: Vec<(Filter, MatchInstance<'p>)> = Vec::new();
        proof {
            assert(all.take(0) =~= Seq::<(Filter, MatchInstance<'p>)>::empty());
            assert(st + sweep_targets(all.take(0), match_ord, subject_id, object_id, window_bound) =~= st);
        }
        for entry in it: taken.into_iter()
            invariant
                it.seq() == all,
                all == old_filtered,
                ev == *match_event,
                self.storage.well_formed(),
                self.storage.simple_instances@ == simple_mid,
                self.runner.state_table@ == table,
                self.window_size == old(self).window_size,
                window_bound == (if match_event.input_event.timestamp >= old(self).window_size {
                    (match_event.input_event.timestamp - old(self).window_size) as u64
                } else {
                    0
                }),
                InstanceRunner::ran_all(rs, st + sweep_targets(all.take(it.index() as int), match_ord, subject_id, object_id, window_bound), ev, outs),
                rs.last() == self.runner,
                rs[0] == old(self).runner,
                outs == outs_s + fouts,
                outs_s.len() == st.len(),
                fouts.len() == sweep_targets(all.take(it.index() as int), match_ord, subject_id, object_id, window_bound).len(),
                kept@ == after_sweep(all.take(it.index() as int), fouts, match_ord, subject_id, object_id, window_bound),
        {
            let (filter, mut instance) = entry;
            let ghost i = it.index() as int;
            let ghost prev = all.take(i);
            let ghost tprev = sweep_targets(prev, match_ord, subject_id, object_id, window_bound);
            proof {
                assert(all.take(i + 1).drop_last() =~= prev);
                assert(all.take(i + 1).last() == all[i]);
                assert(all[i] == (filter, instance));
                lemma_after_sweep_push(prev, fouts, instance, match_ord, subject_id, object_id, window_bound);
            }
            let addressed = match filter {
                Filter::MatchOrdOnly { .. } => false,
                Filter::Subject { match_ord: m, subject: s } => m == match_ord && s == subject_id,
                Filter::Object { match_ord: m, object: o } => m == match_ord && o == object_id,
                Filter::Endpoints { match_ord: m, subject: s, object: o } => m == match_ord && s == subject_id && o == object_id,
            };
            assert(addressed == addressed_by(filter, match_ord, subject_id, object_id));
            if !addressed {
                kept.push((filter, instance));
                proof {
                    assert(kept@ =~= after_sweep(prev, fouts, match_ord, subject_id, object_id, window_bound).push(all[i]));
                    assert(kept@ == after_sweep(all.take(i + 1), fouts, match_ord, subject_id, object_id, window_bound));
                }
            } else if instance.start_time >= window_bound && !matches!(instance.state_data, StateData::Dead) {
                let ghost r0 = self.runner;
                let ghost i0 = instance;
                let ghost ins0 = st + tprev;
                let ghost fouts_old = fouts;
                if self.runner.can_run(&instance) {
                    self.runner.run(&mut instance, match_event);
                }
                proof {
                    assert(InstanceRunner::stepped(r0, i0, ev, self.runner, instance));
                    let ins1 = st + sweep_targets(all.take(i + 1), match_ord, subject_id, object_id, window_bound);
                    assert(ins1 =~= ins0.push(i0));
                    let rs1 = rs.push(self.runner);
                    let outs1 = outs.push(instance);
                    assert forall|t: int| #![trigger outs1[t]] 0 <= t < ins1.len() implies InstanceRunner::stepped(rs1[t], ins1[t], ev, rs1[t + 1], outs1[t]) by {
                        if t < ins0.len() {
                            assert(outs1[t] == outs[t]);
                            assert(InstanceRunner::stepped(rs[t], ins0[t], ev, rs[t + 1], outs[t]));
                        }
                    }
                    rs = rs1;
                    outs = outs1;
                    fouts = fouts.push(instance);
                    assert(outs =~= outs_s + fouts);
                    assert(fouts.drop_last() =~= outs.skip(st.len() as int).drop_last());
                    assert(fouts[tprev.len() as int] == instance);
                }
                let ghost kept0 = kept@;
                kept.push((filter, instance));
                proof {
                    assert(kept@ =~= kept0.push((filter, instance)));
                    assert(fouts.drop_last() =~= fouts_old);
                    assert(kept0 == after_sweep(prev, fouts_old, match_ord, subject_id, object_id, window_bound));
                    assert(hit(all[i], match_ord, subject_id, object_id, window_bound));
                    assert(fouts[fouts_old.len() as int] == instance);
                    assert(after_sweep(prev, fouts, match_ord, subject_id, object_id, window_bound)
                        == after_sweep(prev, fouts.drop_last(), match_ord, subject_id, object_id, window_bound)) by {
                        assert(fouts.drop_last().push(instance) =~= fouts);
                        lemma_after_sweep_push(prev, fouts.drop_last(), instance, match_ord, subject_id, object_id, window_bound);
                    }
                    assert(kept@ == after_sweep(all.take(i + 1), fouts, match_ord, subject_id, object_id, window_bound));
                }
            } else {
                proof {
                    assert(kept@ == after_sweep(all.take(i + 1), fouts, match_ord, subject_id, object_id, window_bound));
                }
            }
        }
        proof {
            assert(all.take(all.len() as int) =~= all);
        }
        self.storage.filtered_instances = kept;
        let ghost kept_final = kept@;
        // the instances placed in waiting states
        let new_instances = self.runner.take_new_instances();
        let ghost ws = new_instances@;
        proof {
            assert(ws.take(0) =~= Seq::<(Filter, MatchInstance<'p>)>::empty());
            assert(kept_final + filtered_part(ws.take(0)) =~= kept_final);
        }
        for entry in it: new_instances.into_iter()
            invariant
                it.seq() == ws,
                self.storage.well_formed(),
                self.runner.state_table@ == table,
                self.window_size == old(self).window_size,
                self.runner.new_instance@.len() == 0,
                self.runner.output_buffer@ == rs.last().output_buffer@,
                self.storage.simple_instances@ == put_all(simple_mid, ws.take(it.index() as int)),
                self.storage.filtered_instances@ == kept_final + filtered_part(ws.take(it.index() as int)),
        {
            let (filter, instance) = entry;
            let ghost j = it.index() as int;
            proof {
                assert(ws.take(j + 1).drop_last() =~= ws.take(j));
                assert(ws.take(j + 1).last() == (filter, instance));
            }
            self.storage.store(filter, instance);
            proof {
                match filter {
                    Filter::MatchOrdOnly { .. } => {},
                    _ => {
                        assert(self.storage.filtered_instances@ =~= kept_final + filtered_part(ws.take(j + 1)));
                    },
                }
            }
        }
        proof {
            assert(ws.take(ws.len() as int) =~= ws);
            assert(outs.skip(st.len() as int) =~= fouts);
            assert(with_simple(simple0, match_ord, outs) == simple_mid) by {
                if exists|j: int| key_at(simple0, match_ord, j) {
                    assert(outs[0] == outs_s[0]);
                }
            }
            let ins = st + sweep_targets(old_filtered, match_ord, subject_id, object_id, window_bound);
            assert(InstanceRunner::ran_all(rs, ins, ev, outs));
            assert(rs[0] == old(self).runner);
            assert(ws == rs.last().waiting());
            assert(self.runner.output_buffer@ == rs.last().output_buffer@);
            assert(self.storage.simple_instances@ == put_all(with_simple(simple0, match_ord, outs), rs.last().waiting()));
            assert(self.storage.filtered_instances@ == after_sweep(old_filtered, outs.skip(st.len() as int), match_ord, subject_id, object_id, window_bound) + filtered_part(rs.last().waiting()));
            assert(Self::accepted(*old(self), *self, ev, rs, outs));
        }
    }
}

} // verus!
