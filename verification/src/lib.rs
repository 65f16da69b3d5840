//! A persistent ordered map, kept as a binary search tree whose versions
//! share their unchanged subtrees.
pub mod errors;
pub mod laws;
pub mod node;
pub mod tree;
