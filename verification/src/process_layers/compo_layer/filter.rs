use vstd::prelude::*;
use crate::process_layers::composition_layer::entity_encode::EntityEncode;

verus! {

/// The key under which a waiting match instance is stored: the match order of the pattern
/// event it waits for, and the input entities that event must share with it.
#[derive(Clone, Copy, PartialEq, Eq, Structural, Debug)]
pub enum Filter {
    MatchOrdOnly { match_ord: usize },
    Subject { match_ord: usize, subject: u64 },
    Object { match_ord: usize, object: u64 },
    Endpoints { match_ord: usize, subject: u64, object: u64 },
}

/// How to build the [Filter] of an instance waiting in a state: which earlier events hold the
/// entities the next pattern event shares.
#[derive(Clone, Copy, PartialEq, Eq, Structural, Debug)]
pub enum FilterInfo {
    NoFilter,
    MatchOrdOnly { match_ord: usize },
    Subject { match_ord: usize, subject: EntityEncode },
    Object { match_ord: usize, object: EntityEncode },
    Endpoints { match_ord: usize, subject: EntityEncode, object: EntityEncode },
}

} // verus!
