//! PartitionSort: an interval tree over the one dimension that keeps its
//! node lists shortest.
pub mod tree;
pub mod classifier;
