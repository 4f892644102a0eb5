use vstd::prelude::*;
use std::rc::Rc;
use crate::input_event::InputEvent;
use crate::process_layers::matching_layer::partial_match_event::PartialMatchEvent;

verus! {

/// What matches input events against a pattern event.
pub trait Matcher<'p> {
    /// The match of `input` when it meets the matcher's requirement, and whether the same
    /// input should be offered again for a further match.
    fn get_match(&mut self, input: &Rc<InputEvent>) -> Option<(PartialMatchEvent<'p>, bool)>;
}

} // verus!
