//! Comparison sorts over slices and an unbalanced binary search tree with a
//! lazy traversal from both ends, each proved against its contract.
pub mod order;
pub mod sorting;
pub mod trees;
