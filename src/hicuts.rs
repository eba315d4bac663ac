//! HiCuts: a multiway decision tree that cuts one dimension into equal strides.
pub mod tree;
pub mod builder;
pub mod classifier;
