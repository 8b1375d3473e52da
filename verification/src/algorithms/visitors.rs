//! Visitors driven by the depth-first traversal engine.

pub mod scc_visitors;
