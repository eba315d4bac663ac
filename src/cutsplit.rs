//! CutSplit: a binary decision tree whose cuts sit on median range endpoints.
pub mod tree;
pub mod builder;
pub mod classifier;
