pub mod compo_layer;
pub mod composition_layer;
pub mod join_layer;
pub mod matching_layer;
pub mod parse_layer;
pub mod uniqueness_layer;
