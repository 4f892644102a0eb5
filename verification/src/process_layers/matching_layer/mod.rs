pub mod default_matcher;
pub mod flow_tracer;
pub mod matcher;
pub mod matching;
pub mod partial_match_event;
pub mod transitive_closure;

pub use partial_match_event::PartialMatchEvent;
