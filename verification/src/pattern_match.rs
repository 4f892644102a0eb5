use vstd::prelude::*;
use std::rc::Rc;
use crate::match_event::MatchEvent;
use crate::process_layers::join_layer::sub_pattern_match::SubPatternMatch;

verus! {

/// A complete pattern match.
#[derive(Debug)]
pub struct PatternMatch {
    /// The timestamp of the last event, which is also the latest timestamp.
    pub latest_time: u64,
    /// The timestamp of the earliest event; for determining expiry of this match.
    pub earliest_time: u64,
    /// Sorted ids of the input events in the match; two matches are equal when these are.
    pub event_ids: Vec<u64>,
    /// `match_event_map[pattern event id]` is the match event of that pattern event.
    pub match_event_map: Vec<Option<Rc<MatchEvent>>>,
}

impl PartialEq for PatternMatch {
    fn eq(&self, other: &Self) -> (res: bool) {
        if self.event_ids.len() != other.event_ids.len() {
            return false;
        }
        let mut k: usize = 0;
        while k < self.event_ids.len()
            invariant
                self.event_ids@.len() == other.event_ids@.len(),
                k <= self.event_ids@.len(),
                forall|j: int| 0 <= j < k ==> self.event_ids@[j] == other.event_ids@[j],
            decreases self.event_ids@.len() - k,
        {
            if self.event_ids[k] != other.event_ids[k] {
                return false;
            }
            k += 1;
        }
        assert(self.event_ids@ =~= other.event_ids@);
        true
    }
}

impl vstd::std_specs::cmp::PartialEqSpecImpl for PatternMatch {
    open spec fn obeys_eq_spec() -> bool {
        true
    }

    open spec fn eq_spec(&self, other: &PatternMatch) -> bool {
        self.event_ids@ == other.event_ids@
    }
}

impl From<SubPatternMatch> for PatternMatch {
    fn from(value: SubPatternMatch) -> (res: PatternMatch) {
        PatternMatch {
            latest_time: value.latest_time,
            earliest_time: value.earliest_time,
            event_ids: value.event_ids,
            match_event_map: value.match_event_map,
        }
    }
}

impl vstd::std_specs::convert::FromSpecImpl<SubPatternMatch> for PatternMatch {
    open spec fn obeys_from_spec() -> bool {
        true
    }

    open spec fn from_spec(v: SubPatternMatch) -> PatternMatch {
        PatternMatch {
            latest_time: v.latest_time,
            earliest_time: v.earliest_time,
            event_ids: v.event_ids,
            match_event_map: v.match_event_map,
        }
    }
}

/// A pattern match ordered by its earliest time, the earliest first.
#[derive(Debug)]
pub struct EarliestFirst(pub PatternMatch);

impl PartialEq for EarliestFirst {
    fn eq(&self, other: &Self) -> (res: bool) {
        self.0.earliest_time == other.0.earliest_time
    }
}

impl vstd::std_specs::cmp::PartialEqSpecImpl for EarliestFirst {
    open spec fn obeys_eq_spec() -> bool {
        true
    }

    open spec fn eq_spec(&self, other: &EarliestFirst) -> bool {
        self.0.earliest_time == other.0.earliest_time
    }
}

} // verus!
