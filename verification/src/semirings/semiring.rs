//! The `Semiring` trait: the algebraic value type every algorithm of this
//! library is parameterized by.

use vstd::prelude::*;

use crate::errors::SemiringError;

verus! {

/// Record of the algebraic properties a semiring advertises.  Algorithms
/// read these flags and rely on them; the laws required by [`Semiring`]
/// make it impossible for an implementation to advertise a flag it does
/// not honour.
#[derive(Clone, Copy, Debug, PartialEq, Eq, Structural)]
pub struct SemiringProperties {
    /// `times` distributes over `plus` from the left.
    pub left_semiring: bool,
    /// `times` distributes over `plus` from the right.
    pub right_semiring: bool,
    /// `plus` is commutative.
    pub commutative: bool,
    /// `plus` is idempotent.
    pub idempotent: bool,
    /// `plus` always returns one of its operands.
    pub path: bool,
}

impl SemiringProperties {
    /// Flags advertised by both operands.
    pub open spec fn spec_intersection(self, other: Self) -> Self {
        SemiringProperties {
            left_semiring: self.left_semiring && other.left_semiring,
            right_semiring: self.right_semiring && other.right_semiring,
            commutative: self.commutative && other.commutative,
            idempotent: self.idempotent && other.idempotent,
            path: self.path && other.path,
        }
    }

    /// The four flags that survive semiring composition; `path` does not.
    pub open spec fn spec_semiring_mask() -> Self {
        SemiringProperties {
            left_semiring: true,
            right_semiring: true,
            commutative: true,
            idempotent: true,
            path: false,
        }
    }

    /// Computes the flags advertised by both operands.
    pub fn intersection(self, other: Self) -> (r: Self)
        ensures
            r == self.spec_intersection(other),
    {
        SemiringProperties {
            left_semiring: self.left_semiring && other.left_semiring,
            right_semiring: self.right_semiring && other.right_semiring,
            commutative: self.commutative && other.commutative,
            idempotent: self.idempotent && other.idempotent,
            path: self.path && other.path,
        }
    }

    /// The executable counterpart of [`Self::spec_semiring_mask`].
    pub fn semiring_mask() -> (r: Self)
        ensures
            r == Self::spec_semiring_mask(),
    {
        SemiringProperties {
            left_semiring: true,
            right_semiring: true,
            commutative: true,
            idempotent: true,
            path: false,
        }
    }
}

/// Which side a weakly divisible semiring is asked to divide on.
#[derive(Clone, Copy, Debug, PartialEq, Eq, Structural)]
pub enum DivideType {
    /// Remove the divisor on the left.
    DivideLeft,
    /// Remove the divisor on the right.
    DivideRight,
    /// Division where both sides agree.
    DivideAny,
}

/// An algebraic value with a `plus` and a `times` operation, identities for
/// both, and a static set of property flags.
///
/// Contracts are stated over the mathematical view `Self::V` of a weight.
/// Both operations are allowed to be partial (`plus_ok` / `times_ok` say
/// where they are defined); the executable operations report a
/// [`SemiringError`] exactly outside that domain and leave the receiver
/// unchanged there.
///
/// Every implementation must prove the semiring laws: `plus` is associative
/// with `zero` as identity (and commutative whenever the `commutative` flag
/// is advertised), `times` is associative with `one` as identity and `zero`
/// absorbing, and `times` distributes over `plus` from every advertised
/// side.
pub trait Semiring: View + Sized {
    /// Plain-data representation used by `new`, `value` and `set_value`.
    type Type;

    /// Mathematical view of a plain-data representation.
    spec fn type_view(t: Self::Type) -> Self::V;

    /// The additive identity, as a view.
    spec fn sv_zero() -> Self::V;

    /// The multiplicative identity, as a view.
    spec fn sv_one() -> Self::V;

    /// Where `plus` is defined.
    spec fn plus_ok(a: Self::V, b: Self::V) -> bool;

    /// The sum of two weights, meaningful where `plus_ok` holds.
    spec fn sv_plus(a: Self::V, b: Self::V) -> Self::V;

    /// Where `times` is defined.
    spec fn times_ok(a: Self::V, b: Self::V) -> bool;

    /// The product of two weights, meaningful where `times_ok` holds.
    spec fn sv_times(a: Self::V, b: Self::V) -> Self::V;

    /// The property flags advertised by this semiring.
    spec fn props_spec() -> SemiringProperties;

    /// Wraps a plain-data value into a weight.
    fn new(value: Self::Type) -> (r: Self)
        ensures
            r@ == Self::type_view(value),
    ;

    /// The additive identity.
    fn zero() -> (r: Self)
        ensures
            r@ == Self::sv_zero(),
    ;

    /// The multiplicative identity.
    fn one() -> (r: Self)
        ensures
            r@ == Self::sv_one(),
    ;

    /// Tests against the additive identity.
    fn is_zero(&self) -> (r: bool)
        ensures
            r == (self@ == Self::sv_zero()),
    ;

    /// Tests against the multiplicative identity.
    fn is_one(&self) -> (r: bool)
        ensures
            r == (self@ == Self::sv_one()),
    ;

    /// Tests two weights for equality of their views.
    fn eq_weight(&self, other: &Self) -> (r: bool)
        ensures
            r == (self@ == other@),
    ;

    /// A copy of this weight with the same view.
    fn sclone(&self) -> (r: Self)
        ensures
            r@ == self@,
    ;

    /// In-place sum.  Fails, leaving the receiver unchanged, exactly where
    /// `plus_ok` does not hold.
    fn plus_assign(&mut self, rhs: &Self) -> (r: Result<(), SemiringError>)
        ensures
            match r {
                Ok(_) => Self::plus_ok(old(self)@, rhs@) && final(self)@ == Self::sv_plus(
                    old(self)@,
                    rhs@,
                ),
                Err(_) => !Self::plus_ok(old(self)@, rhs@) && final(self)@ == old(self)@,
            },
    ;

    /// In-place product.  Fails, leaving the receiver unchanged, exactly
    /// where `times_ok` does not hold.
    fn times_assign(&mut self, rhs: &Self) -> (r: Result<(), SemiringError>)
        ensures
            match r {
                Ok(_) => Self::times_ok(old(self)@, rhs@) && final(self)@ == Self::sv_times(
                    old(self)@,
                    rhs@,
                ),
                Err(_) => !Self::times_ok(old(self)@, rhs@) && final(self)@ == old(self)@,
            },
    ;

    /// Read access to the plain-data representation.
    fn value(&self) -> (r: &Self::Type)
        ensures
            Self::type_view(*r) == self@,
    ;

    /// Consumes the weight, yielding its plain-data representation.
    fn take_value(self) -> (r: Self::Type)
        ensures
            Self::type_view(r) == self@,
    ;

    /// Replaces the plain-data representation.
    fn set_value(&mut self, value: Self::Type)
        ensures
            final(self)@ == Self::type_view(value),
    ;

    /// The property flags advertised by this semiring.
    fn properties() -> (r: SemiringProperties)
        ensures
            r == Self::props_spec(),
    ;

    /// Law: `zero` is an identity for `plus`, on both sides.
    proof fn lemma_plus_zero(a: Self::V)
        ensures
            Self::plus_ok(Self::sv_zero(), a),
            Self::plus_ok(a, Self::sv_zero()),
            Self::sv_plus(Self::sv_zero(), a) == a,
            Self::sv_plus(a, Self::sv_zero()) == a,
    ;

    /// Law: `plus` is associative wherever the left grouping is defined.
    proof fn lemma_plus_assoc(a: Self::V, b: Self::V, c: Self::V)
        requires
            Self::plus_ok(a, b),
            Self::plus_ok(Self::sv_plus(a, b), c),
        ensures
            Self::plus_ok(b, c),
            Self::plus_ok(a, Self::sv_plus(b, c)),
            Self::sv_plus(Self::sv_plus(a, b), c) == Self::sv_plus(a, Self::sv_plus(b, c)),
    ;

    /// Law: `plus` is commutative whenever the `commutative` flag is
    /// advertised.
    proof fn lemma_plus_commute(a: Self::V, b: Self::V)
        requires
            Self::props_spec().commutative,
            Self::plus_ok(a, b),
        ensures
            Self::plus_ok(b, a),
            Self::sv_plus(a, b) == Self::sv_plus(b, a),
    ;

    /// Law: `times` is associative wherever both groupings are defined.
    proof fn lemma_times_assoc(a: Self::V, b: Self::V, c: Self::V)
        requires
            Self::times_ok(a, b),
            Self::times_ok(Self::sv_times(a, b), c),
            Self::times_ok(b, c),
            Self::times_ok(a, Self::sv_times(b, c)),
        ensures
            Self::sv_times(Self::sv_times(a, b), c) == Self::sv_times(a, Self::sv_times(b, c)),
    ;

    /// Law: `one` is an identity for `times`, on both sides.
    proof fn lemma_times_one(a: Self::V)
        ensures
            Self::times_ok(Self::sv_one(), a),
            Self::times_ok(a, Self::sv_one()),
            Self::sv_times(Self::sv_one(), a) == a,
            Self::sv_times(a, Self::sv_one()) == a,
    ;

    /// Law: `zero` is absorbing for `times`, on both sides.
    proof fn lemma_times_zero(a: Self::V)
        ensures
            Self::times_ok(Self::sv_zero(), a),
            Self::times_ok(a, Self::sv_zero()),
            Self::sv_times(Self::sv_zero(), a) == Self::sv_zero(),
            Self::sv_times(a, Self::sv_zero()) == Self::sv_zero(),
    ;

    /// Law: whenever the `left_semiring` flag is advertised, `times`
    /// distributes over `plus` from the left.
    proof fn lemma_distribute_left(a: Self::V, b: Self::V, c: Self::V)
        requires
            Self::props_spec().left_semiring,
            Self::plus_ok(b, c),
            Self::times_ok(a, Self::sv_plus(b, c)),
        ensures
            Self::times_ok(a, b),
            Self::times_ok(a, c),
            Self::plus_ok(Self::sv_times(a, b), Self::sv_times(a, c)),
            Self::sv_times(a, Self::sv_plus(b, c)) == Self::sv_plus(
                Self::sv_times(a, b),
                Self::sv_times(a, c),
            ),
    ;

    /// Law: whenever the `right_semiring` flag is advertised, `times`
    /// distributes over `plus` from the right.
    proof fn lemma_distribute_right(a: Self::V, b: Self::V, c: Self::V)
        requires
            Self::props_spec().right_semiring,
            Self::plus_ok(a, b),
            Self::times_ok(Self::sv_plus(a, b), c),
        ensures
            Self::times_ok(a, c),
            Self::times_ok(b, c),
            Self::plus_ok(Self::sv_times(a, c), Self::sv_times(b, c)),
            Self::sv_times(Self::sv_plus(a, b), c) == Self::sv_plus(
                Self::sv_times(a, c),
                Self::sv_times(b, c),
            ),
    ;
}

/// A semiring with a (possibly one-sided) division that undoes `times`.
pub trait WeaklyDivisibleSemiring: Semiring {
    /// Where `divide` is defined.
    spec fn divide_ok(a: Self::V, b: Self::V, divide_type: DivideType) -> bool;

    /// The quotient, meaningful where `divide_ok` holds.
    spec fn sv_divide(a: Self::V, b: Self::V, divide_type: DivideType) -> Self::V;

    /// In-place division.  Fails, leaving the receiver unchanged, exactly
    /// where `divide_ok` does not hold.
    fn divide_assign(&mut self, rhs: &Self, divide_type: DivideType) -> (r: Result<
        (),
        SemiringError,
    >)
        ensures
            match r {
                Ok(_) => Self::divide_ok(old(self)@, rhs@, divide_type) && final(self)@
                    == Self::sv_divide(old(self)@, rhs@, divide_type),
                Err(e) => !Self::divide_ok(old(self)@, rhs@, divide_type) && final(self)@ == old(
                    self,
                )@ && e == SemiringError::UndefinedDivision,
            },
    ;

    /// Division into a fresh weight.
    fn divide(&self, rhs: &Self, divide_type: DivideType) -> (r: Result<Self, SemiringError>)
        ensures
            match r {
                Ok(w) => Self::divide_ok(self@, rhs@, divide_type) && w@ == Self::sv_divide(
                    self@,
                    rhs@,
                    divide_type,
                ),
                Err(e) => !Self::divide_ok(self@, rhs@, divide_type) && e
                    == SemiringError::UndefinedDivision,
            },
    {
        let mut w = self.sclone();
        match w.divide_assign(rhs, divide_type) {
            Ok(_) => Ok(w),
            Err(e) => Err(e),
        }
    }
}

} // verus!

verus! {

/// A semiring whose weights can be carried into a (possibly different)
/// semiring for reverse-pass algorithms.
pub trait ReverseSemiring: Semiring {
    /// The weight type of the reversal.
    type Rev: Semiring;

    /// The reversal of a weight, as a view of the reverse weight type.
    spec fn sv_rev(a: Self::V) -> <Self::Rev as View>::V;

    /// The reversal of this weight.
    fn reverse(&self) -> (r: Result<Self::Rev, SemiringError>)
        ensures
            r matches Ok(w) && w@ == Self::sv_rev(self@),
    ;
}

} // verus!
