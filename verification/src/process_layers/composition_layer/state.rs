use vstd::prelude::*;
use std::collections::HashSet;

verus! {

/// What a state of the state table does with an instance waiting in it.
#[derive(Clone, Copy, PartialEq, Eq, Structural, Debug)]
pub enum StateInfo {
    Default { next_state: u32 },
    Output { subpattern_id: u32 },
    InitFreq { next_state: u32 },
    AggFreq { next_state: u32, frequency: u32 },
}

/// The run-time data of a state: a frequency state keeps the ids it has seen.
#[derive(Debug)]
pub enum StateData {
    Default { next_state: u32 },
    AggFreq { next_state: u32, frequency: u32, current_set: HashSet<u64> },
    Output { subpattern_id: u32 },
    Dead,
}

impl StateData {
    /// The data a fresh instance gets when it enters a state described by `info`.
    pub fn from_state_info(info: StateInfo) -> (res: StateData)
        ensures
            match info {
                StateInfo::Default { next_state } => res == StateData::Default { next_state },
                StateInfo::Output { subpattern_id } => res == StateData::Output { subpattern_id },
                StateInfo::InitFreq { next_state } => res == StateData::Default { next_state },
                StateInfo::AggFreq { next_state, frequency } => res matches StateData::AggFreq {
                    next_state: n,
                    frequency: f,
                    current_set,
                } && n == next_state && f == frequency && current_set@ == Set::<u64>::empty(),
            },
    {
        match info {
            StateInfo::Default { next_state } => StateData::Default { next_state },
            StateInfo::Output { subpattern_id } => StateData::Output { subpattern_id },
            StateInfo::InitFreq { next_state } => StateData::Default { next_state },
            StateInfo::AggFreq { next_state, frequency } => StateData::AggFreq {
                next_state,
                frequency,
                current_set: HashSet::new(),
            },
        }
    }
}

} // verus!
