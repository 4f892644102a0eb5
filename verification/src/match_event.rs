use vstd::prelude::*;
use std::rc::Rc;
use crate::input_event::InputEvent;

verus! {

/// Input events that a pattern event is matched with.
#[derive(Debug)]
pub enum RawEvents {
    Single(Rc<InputEvent>),
    /// Correspond to `Frequency` match type
    Multiple(Vec<Rc<InputEvent>>),
    /// A flow, given by its start time and end time
    Flow(u64, u64),
}

/// The ids of a sequence of input events.
pub open spec fn ids_of(events: Seq<Rc<InputEvent>>) -> Seq<u64> {
    events.map_values(|e: Rc<InputEvent>| e.event_id)
}

impl RawEvents {
    /// The ids of the input events, in order.
    pub open spec fn ids(self) -> Seq<u64> {
        match self {
            RawEvents::Single(event) => seq![event.event_id],
            RawEvents::Multiple(events) => ids_of(events@),
            RawEvents::Flow(_, _) => Seq::empty(),
        }
    }

    /// The time interval covered by the input events.
    pub open spec fn interval(self) -> (u64, u64) {
        match self {
            RawEvents::Single(event) => (event.timestamp, event.timestamp),
            RawEvents::Multiple(events) => (events@.first().timestamp, events@.last().timestamp),
            RawEvents::Flow(start, end) => (start, end),
        }
    }

    /// A `Multiple` holds at least one input event.
    pub open spec fn well_formed(self) -> bool {
        self matches RawEvents::Multiple(events) ==> events@.len() > 0
    }

    /// Returns the ids of the input events, in order.
    pub fn get_ids(&self) -> (res: Vec<u64>)
        ensures
            res@ == self.ids(),
    {
        match self {
            RawEvents::Single(event) => {
                let mut v = Vec::new();
                v.push(event.event_id);
                assert(v@ =~= seq![event.event_id]);
                v
            },
            RawEvents::Multiple(events) => {
                let mut v: Vec<u64> = Vec::new();
                let mut i: usize = 0;
                while i < events.len()
                    invariant
                        i <= events@.len(),
                        v@ =~= ids_of(events@.subrange(0, i as int)),
                    decreases events@.len() - i,
                {
                    v.push(events[i].event_id);
                    assert(events@.subrange(0, i + 1) =~= events@.subrange(0, i as int).push(
                        events@[i as int],
                    ));
                    i += 1;
                }
                assert(events@.subrange(0, events@.len() as int) =~= events@);
                v
            },
            RawEvents::Flow(_, _) => Vec::new(),
        }
    }

    /// Returns `(start_time, end_time)` of the input events.
    pub fn get_interval(&self) -> (res: (u64, u64))
        requires
            self.well_formed(),
        ensures
            res == self.interval(),
    {
        match self {
            RawEvents::Single(event) => (event.timestamp, event.timestamp),
            RawEvents::Multiple(events) => {
                let first = &events[0];
                let last = &events[events.len() - 1];
                (first.timestamp, last.timestamp)
            },
            RawEvents::Flow(start_time, end_time) => (*start_time, *end_time),
        }
    }
}

/// What a [RawEvents] holds, with the input events of a `Multiple` as a sequence.
pub enum RawEventsView {
    Single(Rc<InputEvent>),
    Multiple(Seq<Rc<InputEvent>>),
    Flow(u64, u64),
}

impl View for RawEvents {
    type V = RawEventsView;

    open spec fn view(&self) -> RawEventsView {
        match self {
            RawEvents::Single(event) => RawEventsView::Single(*event),
            RawEvents::Multiple(events) => RawEventsView::Multiple(events@),
            RawEvents::Flow(start, end) => RawEventsView::Flow(*start, *end),
        }
    }
}

impl Clone for RawEvents {
    fn clone(&self) -> (res: Self)
        ensures
            res@ == self@,
    {
        match self {
            RawEvents::Single(event) => RawEvents::Single(event.clone()),
            RawEvents::Multiple(events) => {
                let mut copy: Vec<Rc<InputEvent>> = Vec::new();
                let mut i: usize = 0;
                while i < events.len()
                    invariant
                        i <= events@.len(),
                        copy@ =~= events@.subrange(0, i as int),
                    decreases events@.len() - i,
                {
                    copy.push(events[i].clone());
                    i += 1;
                }
                assert(copy@ =~= events@);
                RawEvents::Multiple(copy)
            },
            RawEvents::Flow(start, end) => RawEvents::Flow(*start, *end),
        }
    }
}

/// An input event (or a group of them) paired with the pattern event it matches.
#[derive(Debug)]
pub struct MatchEvent {
    /// The pattern event id that `raw_events` are matched to.
    pub match_id: u32,
    /// The subject id of the input event
    pub input_subject_id: u64,
    /// The object id of the input event
    pub input_object_id: u64,
    /// The subject id of the matched pattern event
    pub pattern_subject_id: u64,
    /// The object id of the matched pattern event
    pub pattern_object_id: u64,
    /// Input events
    pub raw_events: RawEvents,
}

/// The fields of a [MatchEvent], with its raw events taken by their view.
pub struct MatchEventView {
    pub match_id: u32,
    pub input_subject_id: u64,
    pub input_object_id: u64,
    pub pattern_subject_id: u64,
    pub pattern_object_id: u64,
    pub raw_events: RawEventsView,
}

impl View for MatchEvent {
    type V = MatchEventView;

    open spec fn view(&self) -> MatchEventView {
        MatchEventView {
            match_id: self.match_id,
            input_subject_id: self.input_subject_id,
            input_object_id: self.input_object_id,
            pattern_subject_id: self.pattern_subject_id,
            pattern_object_id: self.pattern_object_id,
            raw_events: self.raw_events@,
        }
    }
}

/// The views of a sequence of match events.
pub open spec fn match_event_views(events: Seq<MatchEvent>) -> Seq<MatchEventView> {
    events.map_values(|e: MatchEvent| e@)
}

impl Clone for MatchEvent {
    fn clone(&self) -> (res: Self)
        ensures
            res@ == self@,
    {
        MatchEvent {
            match_id: self.match_id,
            input_subject_id: self.input_subject_id,
            input_object_id: self.input_object_id,
            pattern_subject_id: self.pattern_subject_id,
            pattern_object_id: self.pattern_object_id,
            raw_events: self.raw_events.clone(),
        }
    }
}

} // verus!
