//! HyperSplit: a binary decision tree whose pivots balance the worst side
//! against duplication.
pub mod tree;
pub mod builder;
pub mod classifier;
