use vstd::prelude::*;
use crate::process_layers::composition_layer::pattern_info::SharedNodeInfo;

verus! {

/// What a storage lookup asks for: the instances waiting for the pattern event at
/// `match_idx`, that share the given endpoints of an input event.
#[derive(Clone, Copy, Debug)]
pub struct StorageRequest {
    pub match_idx: usize,
    pub subject_id: u64,
    pub object_id: u64,
    pub shared_node_info: SharedNodeInfo,
}

} // verus!
