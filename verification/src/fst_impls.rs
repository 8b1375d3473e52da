//! Concrete FST implementations.

pub mod vector_fst;
