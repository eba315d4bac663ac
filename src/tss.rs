//! TupleMerge: tuple space search over prefix-length tuples, with merging.
pub mod utils;
pub mod classifier;
