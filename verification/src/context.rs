//! The state that selects the probability contexts of coded symbols.

pub mod block_unit;
pub mod transform_unit;
