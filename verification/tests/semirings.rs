//! Tests of the semiring implementations.

use rustfst::errors::SemiringError;
use rustfst::semirings::boolean_weight::BooleanWeight;
use rustfst::semirings::integer_weight::IntegerWeight;
use rustfst::semirings::product_weight::ProductWeight;
use rustfst::semirings::semiring::{DivideType, ReverseSemiring, Semiring, WeaklyDivisibleSemiring};
use rustfst::semirings::string_variant::{divide_left, divide_right, StringWeightVariant};
use rustfst::semirings::string_weight::{StringWeightLeft, StringWeightRestrict, StringWeightRight};

fn left(labels: Vec<usize>) -> StringWeightLeft {
    StringWeightLeft::new(StringWeightVariant::Labels(labels))
}

fn right(labels: Vec<usize>) -> StringWeightRight {
    StringWeightRight::new(StringWeightVariant::Labels(labels))
}

fn restrict(labels: Vec<usize>) -> StringWeightRestrict {
    StringWeightRestrict::new(StringWeightVariant::Labels(labels))
}

#[test]
fn string_left_plus_longest_common_prefix() {
    let mut a = left(vec![1, 2, 3, 4]);
    let b = left(vec![1, 2, 5]);
    a.plus_assign(&b).unwrap();
    assert!(a == left(vec![1, 2]));
}

#[test]
fn string_left_plus_with_infinity() {
    let mut a = left(vec![1, 2, 3]);
    let inf = StringWeightLeft::zero();
    a.plus_assign(&inf).unwrap();
    assert!(a == left(vec![1, 2, 3]));

    let mut b = StringWeightLeft::zero();
    b.plus_assign(&left(vec![1, 2, 3])).unwrap();
    assert!(b == left(vec![1, 2, 3]));
}

#[test]
fn string_right_plus_longest_common_suffix() {
    let mut a = right(vec![9, 2, 3]);
    let b = right(vec![7, 7, 2, 3]);
    a.plus_assign(&b).unwrap();
    assert!(a == right(vec![2, 3]));
}

#[test]
fn string_times_is_concatenation() {
    let mut a = left(vec![1, 2]);
    a.times_assign(&left(vec![3])).unwrap();
    assert!(a == left(vec![1, 2, 3]));
    assert_eq!(a.len_labels(), 3);

    let mut b = left(vec![1]);
    b.times_assign(&StringWeightLeft::zero()).unwrap();
    assert!(b.is_zero());
}

#[test]
fn string_restrict_plus_equal_operands() {
    let mut a = restrict(vec![4, 5]);
    a.plus_assign(&restrict(vec![4, 5])).unwrap();
    assert!(a == restrict(vec![4, 5]));
}

#[test]
fn string_restrict_plus_unequal_operands_fails() {
    let mut a = restrict(vec![4, 5]);
    let r = a.plus_assign(&restrict(vec![4, 6]));
    assert_eq!(r, Err(SemiringError::NonFunctional));
    // the receiver is left unchanged
    assert!(a == restrict(vec![4, 5]));
}

#[test]
fn string_divide_left_removes_prefix() {
    let a = StringWeightVariant::Labels(vec![1, 2, 3, 4]);
    let b = StringWeightVariant::Labels(vec![1, 2]);
    let q = divide_left(&a, &b);
    assert!(q == StringWeightVariant::Labels(vec![3, 4]));
}

#[test]
fn string_divide_right_removes_suffix() {
    let a = StringWeightVariant::Labels(vec![1, 2, 3, 4]);
    let b = StringWeightVariant::Labels(vec![3, 4]);
    let q = divide_right(&a, &b);
    assert!(q == StringWeightVariant::Labels(vec![1, 2]));
}

#[test]
fn string_left_divide_assign_only_left() {
    let mut a = left(vec![1, 2, 3]);
    let r = a.divide_assign(&left(vec![1]), DivideType::DivideRight);
    assert_eq!(r, Err(SemiringError::UndefinedDivision));
    a.divide_assign(&left(vec![1]), DivideType::DivideLeft).unwrap();
    assert!(a == left(vec![2, 3]));
}

#[test]
fn string_reverse_swaps_disciplines() {
    let a = left(vec![1, 2, 3]);
    let r: StringWeightRight = a.reverse().unwrap();
    assert!(r == right(vec![3, 2, 1]));
    let back: StringWeightLeft = r.reverse().unwrap();
    assert!(back == left(vec![1, 2, 3]));
}

#[test]
fn integer_weight_operations() {
    let mut a = IntegerWeight::new(6);
    a.plus_assign(&IntegerWeight::new(4)).unwrap();
    assert_eq!(*a.value(), 10);
    a.times_assign(&IntegerWeight::new(3)).unwrap();
    assert_eq!(*a.value(), 30);
    assert!(IntegerWeight::zero().is_zero());
    assert!(IntegerWeight::one().is_one());
}

#[test]
fn integer_weight_overflow_is_reported() {
    let mut a = IntegerWeight::new(u64::MAX);
    let r = a.plus_assign(&IntegerWeight::new(1));
    assert_eq!(r, Err(SemiringError::NumericOverflow));
    // the receiver is left unchanged
    assert_eq!(*a.value(), u64::MAX);
}

#[test]
fn boolean_weight_operations() {
    let mut a = BooleanWeight::new(false);
    a.plus_assign(&BooleanWeight::new(true)).unwrap();
    assert!(*a.value());
    a.times_assign(&BooleanWeight::new(false)).unwrap();
    assert!(!*a.value());
}

#[test]
fn product_weight_componentwise() {
    let mut p: ProductWeight<IntegerWeight, BooleanWeight> =
        ProductWeight::new((IntegerWeight::new(2), BooleanWeight::new(true)));
    let q = ProductWeight::new((IntegerWeight::new(3), BooleanWeight::new(false)));
    p.times_assign(&q).unwrap();
    assert_eq!(*p.value1().value(), 6);
    assert!(!*p.value2().value());
    p.set_value1(IntegerWeight::new(7));
    p.set_value2(BooleanWeight::new(true));
    assert_eq!(*p.value1().value(), 7);
    assert!(*p.value2().value());
}

#[test]
fn product_weight_properties_are_intersection() {
    // Integer: left, right, commutative.  StringWeightLeft: left, idempotent.
    // Their product keeps only the flags both advertise, among the four
    // flags that survive composition.
    let p = <ProductWeight<IntegerWeight, StringWeightLeft>>::properties();
    assert!(p.left_semiring);
    assert!(!p.right_semiring);
    assert!(!p.commutative);
    assert!(!p.idempotent);
    assert!(!p.path);

    // The `path` flag is masked out even when both components have it.
    let q = <ProductWeight<BooleanWeight, BooleanWeight>>::properties();
    assert!(q.left_semiring && q.right_semiring && q.commutative && q.idempotent);
    assert!(!q.path);
}

#[test]
fn product_weight_divide_componentwise() {
    let mut p: ProductWeight<StringWeightLeft, StringWeightLeft> =
        ProductWeight::new((left(vec![1, 2, 3]), left(vec![1, 9])));
    let q = ProductWeight::new((left(vec![1]), left(vec![1])));
    p.divide_assign(&q, DivideType::DivideLeft).unwrap();
    assert!(*p.value1() == left(vec![2, 3]));
    assert!(*p.value2() == left(vec![9]));
}

#[test]
fn product_weight_reverse_is_componentwise() {
    let p: ProductWeight<StringWeightLeft, IntegerWeight> =
        ProductWeight::new((left(vec![1, 2, 3]), IntegerWeight::new(7)));
    let r = p.reverse().unwrap();
    assert!(*r.value1() == right(vec![3, 2, 1]));
    assert_eq!(*r.value2().value(), 7);
}
