//! Traversal of the paths an FST recognizes.

pub mod paths_iterator;
