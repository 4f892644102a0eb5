use vstd::prelude::*;
use crate::process_layers::composition_layer::entity_encode::EntityEncode;

verus! {

/// The key under which a waiting match instance is stored: the match index of the pattern
/// event it waits for, and the input entities that event must share with it.
#[derive(Clone, Copy, PartialEq, Eq, Structural, Debug)]
pub enum Filter {
    MatchIdxOnly { match_idx: usize },
    Subject { match_idx: usize, subject: u64 },
    Object { match_idx: usize, object: u64 },
    Endpoints { match_idx: usize, subject: u64, object: u64 },
}

/// How to build the [Filter] of an instance waiting in a state: which earlier events hold
/// the entities the next pattern event shares.
#[derive(Clone, Copy, PartialEq, Eq, Structural, Debug)]
pub enum FilterInfo {
    NoFilter,
    MatchIdxOnly { match_idx: usize },
    Subject { match_idx: usize, subject: EntityEncode },
    Object { match_idx: usize, object: EntityEncode },
    Endpoints { match_idx: usize, subject: EntityEncode, object: EntityEncode },
}

} // verus!
