use vstd::prelude::*;
use crate::pattern::PatternEvent;
use crate::process_layers::matching_layer::PartialMatchEvent;

verus! {

/// A pattern event matched by one input event, or by several for a frequency event: the
/// time span, the endpoints and the ids of the input events.
#[derive(Debug)]
pub struct UniversalMatchEvent<'p> {
    pub matched: &'p PatternEvent,
    pub start_time: u64,
    pub end_time: u64,
    pub subject_id: u64,
    pub object_id: u64,
    pub event_ids: Vec<u64>,
}

/// The fields of a [UniversalMatchEvent], with its ids taken by their view.
pub struct UniversalMatchEventView {
    pub matched: PatternEvent,
    pub start_time: u64,
    pub end_time: u64,
    pub subject_id: u64,
    pub object_id: u64,
    pub event_ids: Seq<u64>,
}

impl<'p> View for UniversalMatchEvent<'p> {
    type V = UniversalMatchEventView;

    open spec fn view(&self) -> UniversalMatchEventView {
        UniversalMatchEventView {
            matched: *self.matched,
            start_time: self.start_time,
            end_time: self.end_time,
            subject_id: self.subject_id,
            object_id: self.object_id,
            event_ids: self.event_ids@,
        }
    }
}

/// Copies a list of ids.
pub fn copy_u64s(s: &[u64]) -> (res: Vec<u64>)
    ensures
        res@ == s@,
{
    let mut res: Vec<u64> = Vec::new();
    let mut i: usize = 0;
    while i < s.len()
        invariant
            i <= s@.len(),
            res@ == s@.take(i as int),
        decreases s@.len() - i,
    {
        res.push(s[i]);
        assert(s@.take(i + 1) =~= s@.take(i as int).push(s@[i as int]));
        i += 1;
    }
    assert(s@.take(s@.len() as int) =~= s@);
    res
}

impl<'p> Clone for UniversalMatchEvent<'p> {
    fn clone(&self) -> (res: Self)
        ensures
            res@ == self@,
            res.matched == self.matched,
    {
        UniversalMatchEvent {
            matched: self.matched,
            start_time: self.start_time,
            end_time: self.end_time,
            subject_id: self.subject_id,
            object_id: self.object_id,
            event_ids: copy_u64s(&self.event_ids),
        }
    }
}

impl<'p> UniversalMatchEvent<'p> {
    /// The match of one input event: it starts and ends at the input event's timestamp.
    pub fn from_partial(value: &PartialMatchEvent<'p>) -> (res: Self)
        ensures
            res.matched == value.matched,
            res.start_time == value.input_event.timestamp,
            res.end_time == value.input_event.timestamp,
            res.subject_id == value.input_event.subject_id,
            res.object_id == value.input_event.object_id,
            res.event_ids@ == seq![value.input_event.event_id],
    {
        let mut event_ids: Vec<u64> = Vec::new();
        event_ids.push(value.input_event.event_id);
        assert(event_ids@ =~= seq![value.input_event.event_id]);
        UniversalMatchEvent {
            matched: value.matched,
            start_time: value.input_event.timestamp,
            end_time: value.input_event.timestamp,
            subject_id: value.input_event.subject_id,
            object_id: value.input_event.object_id,
            event_ids,
        }
    }
}

} // verus!
