use vstd::prelude::*;
use crate::input_event::InputEvent;

verus! {

/// An input event with its position in the input, ordered by timestamp and then position.
#[derive(Debug)]
pub struct OrderedEvent {
    pub event: InputEvent,
    pub order: u32,
}

impl OrderedEvent {
    /// Pairs `event` with its position `order`.
    pub fn new(event: InputEvent, order: u32) -> (res: Self)
        ensures
            res.event == event,
            res.order == order,
    {
        OrderedEvent { event, order }
    }
}

impl From<OrderedEvent> for InputEvent {
    fn from(val: OrderedEvent) -> (res: InputEvent) {
        val.event
    }
}

impl vstd::std_specs::convert::FromSpecImpl<OrderedEvent> for InputEvent {
    open spec fn obeys_from_spec() -> bool {
        true
    }

    open spec fn from_spec(v: OrderedEvent) -> InputEvent {
        v.event
    }
}

impl PartialEq for OrderedEvent {
    fn eq(&self, other: &Self) -> (res: bool) {
        self.event.timestamp == other.event.timestamp && self.order == other.order
    }
}

impl vstd::std_specs::cmp::PartialEqSpecImpl for OrderedEvent {
    open spec fn obeys_eq_spec() -> bool {
        true
    }

    open spec fn eq_spec(&self, other: &OrderedEvent) -> bool {
        self.event.timestamp == other.event.timestamp && self.order == other.order
    }
}

} // verus!
