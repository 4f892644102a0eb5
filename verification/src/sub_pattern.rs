pub use crate::pattern::sub_pattern::{decompose, has_shared_node, SubPattern};
