//! Boolean semiring: (or, and, false, true).

use vstd::prelude::*;

use crate::errors::SemiringError;
use crate::semirings::semiring::{ReverseSemiring, Semiring, SemiringProperties};

verus! {

/// Weight over the boolean semiring.
#[derive(Clone, Copy, Debug, PartialEq, Eq, Structural, Hash)]
pub struct BooleanWeight {
    pub(crate) value: bool,
}

impl View for BooleanWeight {
    type V = bool;

    closed spec fn view(&self) -> bool {
        self.value
    }
}

impl Semiring for BooleanWeight {
    type Type = bool;

    open spec fn type_view(t: bool) -> bool {
        t
    }

    open spec fn sv_zero() -> bool {
        false
    }

    open spec fn sv_one() -> bool {
        true
    }

    open spec fn plus_ok(a: bool, b: bool) -> bool {
        true
    }

    open spec fn sv_plus(a: bool, b: bool) -> bool {
        a || b
    }

    open spec fn times_ok(a: bool, b: bool) -> bool {
        true
    }

    open spec fn sv_times(a: bool, b: bool) -> bool {
        a && b
    }

    open spec fn props_spec() -> SemiringProperties {
        SemiringProperties {
            left_semiring: true,
            right_semiring: true,
            commutative: true,
            idempotent: true,
            path: true,
        }
    }

    fn new(value: bool) -> Self {
        BooleanWeight { value }
    }

    fn zero() -> Self {
        BooleanWeight { value: false }
    }

    fn one() -> Self {
        BooleanWeight { value: true }
    }

    fn is_zero(&self) -> bool {
        !self.value
    }

    fn is_one(&self) -> bool {
        self.value
    }

    fn eq_weight(&self, other: &Self) -> bool {
        self.value == other.value
    }

    fn sclone(&self) -> Self {
        BooleanWeight { value: self.value }
    }

    fn plus_assign(&mut self, rhs: &Self) -> Result<(), SemiringError> {
        self.value = self.value || rhs.value;
        Ok(())
    }

    fn times_assign(&mut self, rhs: &Self) -> Result<(), SemiringError> {
        self.value = self.value && rhs.value;
        Ok(())
    }

    fn value(&self) -> &bool {
        &self.value
    }

    fn take_value(self) -> bool {
        self.value
    }

    fn set_value(&mut self, value: bool) {
        self.value = value;
    }

    fn properties() -> SemiringProperties {
        SemiringProperties {
            left_semiring: true,
            right_semiring: true,
            commutative: true,
            idempotent: true,
            path: true,
        }
    }

    proof fn lemma_plus_zero(a: bool) {
    }

    proof fn lemma_plus_assoc(a: bool, b: bool, c: bool) {
    }

    proof fn lemma_plus_commute(a: bool, b: bool) {
    }

    proof fn lemma_times_assoc(a: bool, b: bool, c: bool) {
    }

    proof fn lemma_times_one(a: bool) {
    }

    proof fn lemma_times_zero(a: bool) {
    }

    proof fn lemma_distribute_left(a: bool, b: bool, c: bool) {
    }

    proof fn lemma_distribute_right(a: bool, b: bool, c: bool) {
    }
}

impl ReverseSemiring for BooleanWeight {
    type Rev = BooleanWeight;

    open spec fn sv_rev(a: bool) -> bool {
        a
    }

    fn reverse(&self) -> Result<BooleanWeight, SemiringError> {
        Ok(BooleanWeight { value: self.value })
    }
}

} // verus!
