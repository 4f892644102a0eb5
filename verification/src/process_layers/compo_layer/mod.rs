pub mod filter;
pub mod instance_runner;
pub mod instance_storage;
pub mod match_instance;

pub use crate::process_layers::composition_layer::entity_encode;
pub use crate::process_layers::composition_layer::state;

pub use instance_runner::InstanceRunner;
pub use instance_storage::{CompoLayer, InstanceStorage};
pub use match_instance::{InstanceAction, MatchInstance};
pub use state::{StateData, StateInfo};
