//! Core of a weighted finite-state transducer (WFST) library.
//!
//! A WFST is a directed graph whose transitions carry an input label, an
//! output label and a weight drawn from a semiring.  This crate provides the
//! semiring abstraction together with several concrete semirings, a mutable
//! vector-backed FST, a depth-first traversal engine with Tarjan-style
//! strongly-connected-component visitors, and the leaf algorithms built on
//! them: connect, relabel, union, arc mapping and path decoding.

use vstd::prelude::*;

pub mod algorithms;
pub mod arc;
pub mod errors;
pub mod fst_impls;
pub mod fst_path;
pub mod fst_traits;
pub mod utils;
pub mod semirings;

verus! {

/// Identifier of a symbol carried by an arc.
pub type Label = usize;

/// Index of a state inside an FST's state vector.
pub type StateId = usize;

/// Reserved label denoting the empty symbol.
pub const EPS_LABEL: Label = 0;

/// Signed sentinel meaning "no state"; used by the traversal bookkeeping,
/// whose counters are signed so that `-1` can mark unassigned slots.
pub const NO_STATE_ID: i32 = -1;

} // verus!
