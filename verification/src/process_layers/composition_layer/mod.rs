pub mod entity_encode;
pub mod filter;
pub mod flow_tracer;
pub mod instance_storage;
pub mod pattern_info;
pub mod state;
pub mod match_instance;
pub mod state_table;
