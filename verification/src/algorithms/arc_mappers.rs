//! Concrete arc mappers.

pub mod invert_weight_mapper;
