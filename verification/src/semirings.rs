//! The semiring abstraction and the concrete semirings shipped with the
//! library.

pub mod boolean_weight;
pub mod integer_weight;
pub mod product_weight;
pub mod semiring;
pub mod string_variant;
pub mod string_weight;
