use vstd::prelude::*;
use std::rc::Rc;
use crate::input_event::InputEvent;
use crate::pattern::PatternEvent;

verus! {

/// An input event that matches a pattern event, with the position of that pattern event in
/// the order of the decomposition.
#[derive(Debug)]
pub struct PartialMatchEvent<'p> {
    pub matched: &'p PatternEvent,
    pub input_event: Rc<InputEvent>,
    pub match_ord: usize,
}

} // verus!
