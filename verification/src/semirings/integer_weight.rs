//! Integer semiring: (add, multiply, 0, 1) over unsigned integers.
//!
//! Both operations are partial: they fail, without mutating the receiver,
//! when the mathematical result does not fit in the carrier type.

use vstd::prelude::*;

use crate::errors::SemiringError;
use crate::semirings::semiring::{ReverseSemiring, Semiring, SemiringProperties};

verus! {

/// Weight over the integer semiring.
#[derive(Clone, Copy, Debug, PartialEq, Eq, Structural, Hash)]
pub struct IntegerWeight {
    pub(crate) value: u64,
}

impl View for IntegerWeight {
    type V = u64;

    closed spec fn view(&self) -> u64 {
        self.value
    }
}

impl Semiring for IntegerWeight {
    type Type = u64;

    open spec fn type_view(t: u64) -> u64 {
        t
    }

    open spec fn sv_zero() -> u64 {
        0
    }

    open spec fn sv_one() -> u64 {
        1
    }

    open spec fn plus_ok(a: u64, b: u64) -> bool {
        a + b <= u64::MAX
    }

    open spec fn sv_plus(a: u64, b: u64) -> u64 {
        (a + b) as u64
    }

    open spec fn times_ok(a: u64, b: u64) -> bool {
        a * b <= u64::MAX
    }

    open spec fn sv_times(a: u64, b: u64) -> u64 {
        (a * b) as u64
    }

    open spec fn props_spec() -> SemiringProperties {
        SemiringProperties {
            left_semiring: true,
            right_semiring: true,
            commutative: true,
            idempotent: false,
            path: false,
        }
    }

    fn new(value: u64) -> Self {
        IntegerWeight { value }
    }

    fn zero() -> Self {
        IntegerWeight { value: 0 }
    }

    fn one() -> Self {
        IntegerWeight { value: 1 }
    }

    fn is_zero(&self) -> bool {
        self.value == 0
    }

    fn is_one(&self) -> bool {
        self.value == 1
    }

    fn eq_weight(&self, other: &Self) -> bool {
        self.value == other.value
    }

    fn sclone(&self) -> Self {
        IntegerWeight { value: self.value }
    }

    fn plus_assign(&mut self, rhs: &Self) -> Result<(), SemiringError> {
        match self.value.checked_add(rhs.value) {
            Some(v) => {
                self.value = v;
                Ok(())
            },
            None => Err(SemiringError::NumericOverflow),
        }
    }

    fn times_assign(&mut self, rhs: &Self) -> Result<(), SemiringError> {
        match self.value.checked_mul(rhs.value) {
            Some(v) => {
                self.value = v;
                Ok(())
            },
            None => Err(SemiringError::NumericOverflow),
        }
    }

    fn value(&self) -> &u64 {
        &self.value
    }

    fn take_value(self) -> u64 {
        self.value
    }

    fn set_value(&mut self, value: u64) {
        self.value = value;
    }

    fn properties() -> SemiringProperties {
        SemiringProperties {
            left_semiring: true,
            right_semiring: true,
            commutative: true,
            idempotent: false,
            path: false,
        }
    }

    proof fn lemma_plus_zero(a: u64) {
    }

    proof fn lemma_plus_assoc(a: u64, b: u64, c: u64) {
    }

    proof fn lemma_plus_commute(a: u64, b: u64) {
    }

    proof fn lemma_times_assoc(a: u64, b: u64, c: u64) {
        assert((a * b) * c == a * (b * c)) by (nonlinear_arith);
    }

    proof fn lemma_times_one(a: u64) {
        assert(1 * a == a) by (nonlinear_arith);
        assert(a * 1 == a) by (nonlinear_arith);
    }

    proof fn lemma_times_zero(a: u64) {
        assert(0 * a == 0) by (nonlinear_arith);
        assert(a * 0 == 0) by (nonlinear_arith);
    }

    proof fn lemma_distribute_left(a: u64, b: u64, c: u64) {
        assert(a * (b + c) == a * b + a * c) by (nonlinear_arith);
        assert(a * b <= a * (b + c) && a * c <= a * (b + c)) by (nonlinear_arith);
    }

    proof fn lemma_distribute_right(a: u64, b: u64, c: u64) {
        assert((a + b) * c == a * c + b * c) by (nonlinear_arith);
        assert(a * c <= (a + b) * c && b * c <= (a + b) * c) by (nonlinear_arith);
    }
}

impl ReverseSemiring for IntegerWeight {
    type Rev = IntegerWeight;

    open spec fn sv_rev(a: u64) -> u64 {
        a
    }

    fn reverse(&self) -> Result<IntegerWeight, SemiringError> {
        Ok(IntegerWeight { value: self.value })
    }
}

} // verus!
