use vstd::prelude::*;
use crate::pattern::PatternEvent;
use crate::process_layers::composition_layer::filter::FilterInfo;

verus! {

/// Which endpoints of a pattern event are shared with the events matched before it.
#[derive(Clone, Copy, PartialEq, Eq, Structural, Debug)]
pub enum SharedNodeInfo {
    Neither,
    Subject,
    Object,
    Both,
}

/// The shared endpoints that a filter description asks for.
pub open spec fn shared_node_info_of(info: FilterInfo) -> SharedNodeInfo {
    match info {
        FilterInfo::NoFilter => SharedNodeInfo::Neither,
        FilterInfo::MatchIdxOnly { .. } => SharedNodeInfo::Neither,
        FilterInfo::Subject { .. } => SharedNodeInfo::Subject,
        FilterInfo::Object { .. } => SharedNodeInfo::Object,
        FilterInfo::Endpoints { .. } => SharedNodeInfo::Both,
    }
}

impl From<FilterInfo> for SharedNodeInfo {
    fn from(value: FilterInfo) -> (res: SharedNodeInfo) {
        match value {
            FilterInfo::NoFilter => SharedNodeInfo::Neither,
            FilterInfo::MatchIdxOnly { .. } => SharedNodeInfo::Neither,
            FilterInfo::Subject { .. } => SharedNodeInfo::Subject,
            FilterInfo::Object { .. } => SharedNodeInfo::Object,
            FilterInfo::Endpoints { .. } => SharedNodeInfo::Both,
        }
    }
}

impl vstd::std_specs::convert::FromSpecImpl<FilterInfo> for SharedNodeInfo {
    open spec fn obeys_from_spec() -> bool {
        true
    }

    open spec fn from_spec(v: FilterInfo) -> SharedNodeInfo {
        shared_node_info_of(v)
    }
}

/// A pattern event matched by a single input event.
pub struct SinglePattern<'p> {
    pub pattern: &'p PatternEvent,
    pub match_idx: usize,
    pub shared_node_info: SharedNodeInfo,
    pub signature_idx: usize,
}

/// A pattern event matched by `frequency` distinct input events.
pub struct FreqPattern<'p> {
    pub pattern: &'p PatternEvent,
    pub match_idx: usize,
    pub shared_node_info: SharedNodeInfo,
    pub signature_idx: usize,
    pub frequency: u32,
}

/// A pattern event matched by a flow between two entities.
pub struct FlowPattern<'p> {
    pub pattern: &'p PatternEvent,
    pub match_idx: usize,
    pub shared_node_info: SharedNodeInfo,
    pub src_sig_idx: usize,
    pub dst_sig_idx: usize,
}

/// The matching information of one pattern event.
pub enum PatternInfo<'p> {
    Single(SinglePattern<'p>),
    Freq(FreqPattern<'p>),
    Flow(FlowPattern<'p>),
}

impl<'p> From<SinglePattern<'p>> for PatternInfo<'p> {
    fn from(value: SinglePattern<'p>) -> (res: PatternInfo<'p>) {
        PatternInfo::Single(value)
    }
}

impl<'p> vstd::std_specs::convert::FromSpecImpl<SinglePattern<'p>> for PatternInfo<'p> {
    open spec fn obeys_from_spec() -> bool {
        true
    }

    open spec fn from_spec(v: SinglePattern<'p>) -> PatternInfo<'p> {
        PatternInfo::Single(v)
    }
}

impl<'p> From<FreqPattern<'p>> for PatternInfo<'p> {
    fn from(value: FreqPattern<'p>) -> (res: PatternInfo<'p>) {
        PatternInfo::Freq(value)
    }
}

impl<'p> vstd::std_specs::convert::FromSpecImpl<FreqPattern<'p>> for PatternInfo<'p> {
    open spec fn obeys_from_spec() -> bool {
        true
    }

    open spec fn from_spec(v: FreqPattern<'p>) -> PatternInfo<'p> {
        PatternInfo::Freq(v)
    }
}

impl<'p> From<FlowPattern<'p>> for PatternInfo<'p> {
    fn from(value: FlowPattern<'p>) -> (res: PatternInfo<'p>) {
        PatternInfo::Flow(value)
    }
}

impl<'p> vstd::std_specs::convert::FromSpecImpl<FlowPattern<'p>> for PatternInfo<'p> {
    open spec fn obeys_from_spec() -> bool {
        true
    }

    open spec fn from_spec(v: FlowPattern<'p>) -> PatternInfo<'p> {
        PatternInfo::Flow(v)
    }
}

} // verus!
