//! Incremental pattern matching over provenance-graph event streams.
pub mod input_event;
pub mod match_event;
pub mod pattern;
pub mod pattern_match;
pub mod process_layers;
pub mod universal_match_event;
pub mod sub_pattern;
pub mod sub_pattern_match;
