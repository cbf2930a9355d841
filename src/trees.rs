//! Ordered trees.
pub mod binary;
