//! Product semiring: pairs of weights with componentwise operations.

use vstd::prelude::*;

use crate::errors::SemiringError;
use crate::semirings::semiring::{
    DivideType, ReverseSemiring, Semiring, SemiringProperties, WeaklyDivisibleSemiring,
};

verus! {

/// Weight over the product semiring `W1 * W2`: both operations act
/// componentwise, and the advertised properties are those advertised by
/// both components, restricted to the four flags that survive composition.
pub struct ProductWeight<W1: Semiring, W2: Semiring> {
    pub(crate) weight: (W1, W2),
}

impl<W1: Semiring, W2: Semiring> Clone for ProductWeight<W1, W2> {
    fn clone(&self) -> (r: Self)
        ensures
            r@ == self@,
    {
        ProductWeight { weight: (self.weight.0.sclone(), self.weight.1.sclone()) }
    }
}

impl<W1: Semiring, W2: Semiring> View for ProductWeight<W1, W2> {
    type V = (<W1 as View>::V, <W2 as View>::V);

    closed spec fn view(&self) -> (<W1 as View>::V, <W2 as View>::V) {
        (self.weight.0@, self.weight.1@)
    }
}

impl<W1: Semiring, W2: Semiring> ProductWeight<W1, W2> {
    /// The first component.
    pub fn value1(&self) -> (r: &W1)
        ensures
            r@ == self@.0,
    {
        &self.weight.0
    }

    /// The second component.
    pub fn value2(&self) -> (r: &W2)
        ensures
            r@ == self@.1,
    {
        &self.weight.1
    }

    /// Replaces the first component.
    pub fn set_value1(&mut self, new_weight: W1)
        ensures
            final(self)@ == (new_weight@, old(self)@.1),
    {
        self.weight.0 = new_weight;
    }

    /// Replaces the second component.
    pub fn set_value2(&mut self, new_weight: W2)
        ensures
            final(self)@ == (old(self)@.0, new_weight@),
    {
        self.weight.1 = new_weight;
    }
}

impl<W1: Semiring, W2: Semiring> PartialEq for ProductWeight<W1, W2> {
    fn eq(&self, other: &Self) -> bool {
        self.weight.0.eq_weight(&other.weight.0) && self.weight.1.eq_weight(&other.weight.1)
    }
}

impl<W1: Semiring, W2: Semiring> vstd::std_specs::cmp::PartialEqSpecImpl for ProductWeight<W1, W2> {
    open spec fn obeys_eq_spec() -> bool {
        true
    }

    open spec fn eq_spec(&self, other: &Self) -> bool {
        self@ == other@
    }
}

impl<W1: Semiring, W2: Semiring> Semiring for ProductWeight<W1, W2> {
    type Type = (W1, W2);

    open spec fn type_view(t: (W1, W2)) -> (<W1 as View>::V, <W2 as View>::V) {
        (t.0@, t.1@)
    }

    open spec fn sv_zero() -> (<W1 as View>::V, <W2 as View>::V) {
        (W1::sv_zero(), W2::sv_zero())
    }

    open spec fn sv_one() -> (<W1 as View>::V, <W2 as View>::V) {
        (W1::sv_one(), W2::sv_one())
    }

    open spec fn plus_ok(a: Self::V, b: Self::V) -> bool {
        W1::plus_ok(a.0, b.0) && W2::plus_ok(a.1, b.1)
    }

    open spec fn sv_plus(a: Self::V, b: Self::V) -> Self::V {
        (W1::sv_plus(a.0, b.0), W2::sv_plus(a.1, b.1))
    }

    open spec fn times_ok(a: Self::V, b: Self::V) -> bool {
        W1::times_ok(a.0, b.0) && W2::times_ok(a.1, b.1)
    }

    open spec fn sv_times(a: Self::V, b: Self::V) -> Self::V {
        (W1::sv_times(a.0, b.0), W2::sv_times(a.1, b.1))
    }

    open spec fn props_spec() -> SemiringProperties {
        W1::props_spec().spec_intersection(W2::props_spec()).spec_intersection(
            SemiringProperties::spec_semiring_mask(),
        )
    }

    fn new(value: (W1, W2)) -> Self {
        ProductWeight { weight: value }
    }

    fn zero() -> Self {
        ProductWeight { weight: (W1::zero(), W2::zero()) }
    }

    fn one() -> Self {
        ProductWeight { weight: (W1::one(), W2::one()) }
    }

    fn is_zero(&self) -> bool {
        self.weight.0.is_zero() && self.weight.1.is_zero()
    }

    fn is_one(&self) -> bool {
        self.weight.0.is_one() && self.weight.1.is_one()
    }

    fn eq_weight(&self, other: &Self) -> bool {
        self.weight.0.eq_weight(&other.weight.0) && self.weight.1.eq_weight(&other.weight.1)
    }

    fn sclone(&self) -> Self {
        ProductWeight { weight: (self.weight.0.sclone(), self.weight.1.sclone()) }
    }

    fn plus_assign(&mut self, rhs: &Self) -> Result<(), SemiringError> {
        let mut a = self.weight.0.sclone();
        match a.plus_assign(&rhs.weight.0) {
            Ok(_) => {},
            Err(e) => {
                return Err(e);
            },
        }
        let mut b = self.weight.1.sclone();
        match b.plus_assign(&rhs.weight.1) {
            Ok(_) => {},
            Err(e) => {
                return Err(e);
            },
        }
        self.weight.0 = a;
        self.weight.1 = b;
        Ok(())
    }

    fn times_assign(&mut self, rhs: &Self) -> Result<(), SemiringError> {
        let mut a = self.weight.0.sclone();
        match a.times_assign(&rhs.weight.0) {
            Ok(_) => {},
            Err(e) => {
                return Err(e);
            },
        }
        let mut b = self.weight.1.sclone();
        match b.times_assign(&rhs.weight.1) {
            Ok(_) => {},
            Err(e) => {
                return Err(e);
            },
        }
        self.weight.0 = a;
        self.weight.1 = b;
        Ok(())
    }

    fn value(&self) -> &(W1, W2) {
        &self.weight
    }

    fn take_value(self) -> (W1, W2) {
        self.weight
    }

    fn set_value(&mut self, value: (W1, W2)) {
        self.weight = value;
    }

    fn properties() -> SemiringProperties {
        W1::properties().intersection(W2::properties()).intersection(
            SemiringProperties::semiring_mask(),
        )
    }

    proof fn lemma_plus_zero(a: Self::V) {
        W1::lemma_plus_zero(a.0);
        W2::lemma_plus_zero(a.1);
    }

    proof fn lemma_plus_assoc(a: Self::V, b: Self::V, c: Self::V) {
        W1::lemma_plus_assoc(a.0, b.0, c.0);
        W2::lemma_plus_assoc(a.1, b.1, c.1);
    }

    proof fn lemma_plus_commute(a: Self::V, b: Self::V) {
        W1::lemma_plus_commute(a.0, b.0);
        W2::lemma_plus_commute(a.1, b.1);
    }

    proof fn lemma_times_assoc(a: Self::V, b: Self::V, c: Self::V) {
        W1::lemma_times_assoc(a.0, b.0, c.0);
        W2::lemma_times_assoc(a.1, b.1, c.1);
    }

    proof fn lemma_times_one(a: Self::V) {
        W1::lemma_times_one(a.0);
        W2::lemma_times_one(a.1);
    }

    proof fn lemma_times_zero(a: Self::V) {
        W1::lemma_times_zero(a.0);
        W2::lemma_times_zero(a.1);
    }

    proof fn lemma_distribute_left(a: Self::V, b: Self::V, c: Self::V) {
        W1::lemma_distribute_left(a.0, b.0, c.0);
        W2::lemma_distribute_left(a.1, b.1, c.1);
    }

    proof fn lemma_distribute_right(a: Self::V, b: Self::V, c: Self::V) {
        W1::lemma_distribute_right(a.0, b.0, c.0);
        W2::lemma_distribute_right(a.1, b.1, c.1);
    }
}

impl<W1: WeaklyDivisibleSemiring, W2: WeaklyDivisibleSemiring> WeaklyDivisibleSemiring
    for ProductWeight<W1, W2> {
    open spec fn divide_ok(a: Self::V, b: Self::V, divide_type: DivideType) -> bool {
        W1::divide_ok(a.0, b.0, divide_type) && W2::divide_ok(a.1, b.1, divide_type)
    }

    open spec fn sv_divide(a: Self::V, b: Self::V, divide_type: DivideType) -> Self::V {
        (W1::sv_divide(a.0, b.0, divide_type), W2::sv_divide(a.1, b.1, divide_type))
    }

    fn divide_assign(&mut self, rhs: &Self, divide_type: DivideType) -> Result<(), SemiringError> {
        let mut a = self.weight.0.sclone();
        match a.divide_assign(&rhs.weight.0, divide_type) {
            Ok(_) => {},
            Err(e) => {
                return Err(e);
            },
        }
        let mut b = self.weight.1.sclone();
        match b.divide_assign(&rhs.weight.1, divide_type) {
            Ok(_) => {},
            Err(e) => {
                return Err(e);
            },
        }
        self.weight.0 = a;
        self.weight.1 = b;
        Ok(())
    }
}

/// The reversal of a product weight is the product of the reversals.
impl<W1: ReverseSemiring, W2: ReverseSemiring> ReverseSemiring for ProductWeight<W1, W2> {
    type Rev = ProductWeight<W1::Rev, W2::Rev>;

    open spec fn sv_rev(a: Self::V) -> (<W1::Rev as View>::V, <W2::Rev as View>::V) {
        (W1::sv_rev(a.0), W2::sv_rev(a.1))
    }

    fn reverse(&self) -> Result<ProductWeight<W1::Rev, W2::Rev>, SemiringError> {
        let a = match self.weight.0.reverse() {
            Ok(a) => a,
            Err(e) => {
                return Err(e);
            },
        };
        let b = match self.weight.1.reverse() {
            Ok(b) => b,
            Err(e) => {
                return Err(e);
            },
        };
        Ok(ProductWeight { weight: (a, b) })
    }
}

} // verus!
