//! A docking layout engine: tabbed panels arranged in a binary tree of
//! horizontal and vertical splits, stored as an implicit array.
pub mod index;
pub mod node;
pub mod tree;
pub mod laws;
