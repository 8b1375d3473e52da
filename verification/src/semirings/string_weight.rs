//! String semirings: weights that are label strings (or `Infinity`), with
//! concatenation as `times` and a string-matching discipline as `plus`.
//!
//! Three variants exist: `Left` (`plus` is the longest common prefix),
//! `Right` (`plus` is the longest common suffix) and `Restrict` (`plus`
//! fails on two different label strings; useful with algorithms that
//! require functional transducer input).

use vstd::prelude::*;

use crate::errors::SemiringError;
use crate::semirings::semiring::{
    DivideType, ReverseSemiring, Semiring, SemiringProperties, WeaklyDivisibleSemiring,
};
use crate::semirings::string_variant::{
    divide_left, divide_right, lcp, lcp_labels, lcs, lcs_labels, lemma_lcp_assoc,
    lemma_lcp_prepend, lemma_lcs_append, lemma_lcs_assoc, sv_divide_left, sv_divide_right, StringV,
    StringWeightVariant,
};
use crate::Label;

verus! {

/// Determines whether to use the left or the right string semiring, or the
/// restricted variant that fails on two different operands.
pub enum StringType {
    /// `plus` fails on two different label strings.
    StringRestrict,
    /// `plus` is the longest common prefix.
    StringLeft,
    /// `plus` is the longest common suffix.
    StringRight,
}

/// String semiring with the longest common prefix as `plus`.
#[derive(Clone, Debug)]
pub struct StringWeightLeft {
    pub(crate) value: StringWeightVariant,
}

/// String semiring with the longest common suffix as `plus`.
#[derive(Clone, Debug)]
pub struct StringWeightRight {
    pub(crate) value: StringWeightVariant,
}

/// String semiring whose `plus` fails on two different label strings.
#[derive(Clone, Debug)]
pub struct StringWeightRestrict {
    pub(crate) value: StringWeightVariant,
}

/// The sum of two string weight values under the `Left` discipline.
pub open spec fn sv_plus_left(a: StringV, b: StringV) -> StringV {
    match (a, b) {
        (StringV::Infinity, _) => b,
        (_, StringV::Infinity) => a,
        (StringV::Labels(x), StringV::Labels(y)) => StringV::Labels(lcp(x, y)),
    }
}

/// The sum of two string weight values under the `Right` discipline.
pub open spec fn sv_plus_right(a: StringV, b: StringV) -> StringV {
    match (a, b) {
        (StringV::Infinity, _) => b,
        (_, StringV::Infinity) => a,
        (StringV::Labels(x), StringV::Labels(y)) => StringV::Labels(lcs(x, y)),
    }
}

/// The sum of two string weight values under the `Restrict` discipline,
/// meaningful where the operands agree or one is `Infinity`.
pub open spec fn sv_plus_restrict(a: StringV, b: StringV) -> StringV {
    match (a, b) {
        (StringV::Infinity, _) => b,
        (_, StringV::Infinity) => a,
        (StringV::Labels(x), StringV::Labels(y)) => a,
    }
}

/// The product of two string weight values: concatenation, with
/// `Infinity` absorbing.
pub open spec fn sv_times_str(a: StringV, b: StringV) -> StringV {
    match (a, b) {
        (StringV::Infinity, _) => StringV::Infinity,
        (_, StringV::Infinity) => StringV::Infinity,
        (StringV::Labels(x), StringV::Labels(y)) => StringV::Labels(x + y),
    }
}

/// Computes the concatenation of two label vectors.
fn concat_labels(a: &Vec<Label>, b: &Vec<Label>) -> (r: Vec<Label>)
    ensures
        r@ == a@ + b@,
{
    let mut out: Vec<Label> = Vec::new();
    let mut i: usize = 0;
    while i < a.len()
        invariant
            i <= a@.len(),
            out@.len() == i,
            forall|j: int| 0 <= j < i ==> #[trigger] out@[j] == a@[j],
        decreases a@.len() - i,
    {
        out.push(a[i]);
        i = i + 1;
    }
    let mut k: usize = 0;
    while k < b.len()
        invariant
            k <= b@.len(),
            out@.len() == a@.len() + k,
            forall|j: int| 0 <= j < a@.len() ==> #[trigger] out@[j] == a@[j],
            forall|j: int| a@.len() <= j < a@.len() + k ==> #[trigger] out@[j] == b@[j - a@.len()],
        decreases b@.len() - k,
    {
        out.push(b[k]);
        k = k + 1;
    }
    proof {
        assert(out@ =~= a@ + b@);
    }
    out
}

impl View for StringWeightLeft {
    type V = StringV;

    closed spec fn view(&self) -> StringV {
        self.value@
    }
}

impl StringWeightLeft {
    /// Number of labels held; zero for `Infinity`.
    pub fn len_labels(&self) -> (r: usize)
        ensures
            r == (match self@ {
                StringV::Infinity => 0int,
                StringV::Labels(l) => l.len() as int,
            }),
    {
        match &self.value {
            StringWeightVariant::Infinity => 0,
            StringWeightVariant::Labels(l) => l.len(),
        }
    }
}

impl PartialEq for StringWeightLeft {
    fn eq(&self, other: &Self) -> bool {
        self.value == other.value
    }
}

impl vstd::std_specs::cmp::PartialEqSpecImpl for StringWeightLeft {
    open spec fn obeys_eq_spec() -> bool {
        true
    }

    open spec fn eq_spec(&self, other: &Self) -> bool {
        self@ == other@
    }
}

impl Semiring for StringWeightLeft {
    type Type = StringWeightVariant;

    open spec fn type_view(t: StringWeightVariant) -> StringV {
        t@
    }

    open spec fn sv_zero() -> StringV {
        StringV::Infinity
    }

    open spec fn sv_one() -> StringV {
        StringV::Labels(Seq::empty())
    }

    open spec fn plus_ok(a: StringV, b: StringV) -> bool {
        true
    }

    open spec fn sv_plus(a: StringV, b: StringV) -> StringV {
        sv_plus_left(a, b)
    }

    open spec fn times_ok(a: StringV, b: StringV) -> bool {
        true
    }

    open spec fn sv_times(a: StringV, b: StringV) -> StringV {
        sv_times_str(a, b)
    }

    open spec fn props_spec() -> SemiringProperties {
        SemiringProperties {
            left_semiring: true,
            right_semiring: false,
            commutative: false,
            idempotent: true,
            path: false,
        }
    }

    fn new(value: StringWeightVariant) -> Self {
        StringWeightLeft { value }
    }

    fn zero() -> Self {
        StringWeightLeft { value: StringWeightVariant::Infinity }
    }

    fn one() -> (r: Self) {
        let r = StringWeightLeft { value: StringWeightVariant::Labels(Vec::new()) };
        proof {
            assert(r@ ->Labels_0 =~= Seq::<Label>::empty());
        }
        r
    }

    fn is_zero(&self) -> bool {
        match &self.value {
            StringWeightVariant::Infinity => true,
            StringWeightVariant::Labels(_) => false,
        }
    }

    fn is_one(&self) -> (r: bool) {
        let r = match &self.value {
            StringWeightVariant::Infinity => false,
            StringWeightVariant::Labels(l) => l.len() == 0,
        };
        proof {
            if self@ is Labels {
                if self@ ->Labels_0 =~= Seq::<Label>::empty() {
                }
            }
        }
        r
    }

    fn eq_weight(&self, other: &Self) -> bool {
        self.value == other.value
    }

    fn sclone(&self) -> Self {
        StringWeightLeft { value: self.value.sclone() }
    }

    fn plus_assign(&mut self, rhs: &Self) -> Result<(), SemiringError> {
        let new_value = match (&self.value, &rhs.value) {
            (StringWeightVariant::Infinity, _) => Some(rhs.value.sclone()),
            (_, StringWeightVariant::Infinity) => None,
            (StringWeightVariant::Labels(l1), StringWeightVariant::Labels(l2)) => Some(
                StringWeightVariant::Labels(lcp_labels(l1, l2)),
            ),
        };
        match new_value {
            Some(v) => {
                self.value = v;
            },
            None => {},
        }
        Ok(())
    }

    fn times_assign(&mut self, rhs: &Self) -> Result<(), SemiringError> {
        let new_value = match (&self.value, &rhs.value) {
            (StringWeightVariant::Infinity, _) => None,
            (StringWeightVariant::Labels(_), StringWeightVariant::Infinity) => Some(
                StringWeightVariant::Infinity,
            ),
            (StringWeightVariant::Labels(l1), StringWeightVariant::Labels(l2)) => Some(
                StringWeightVariant::Labels(concat_labels(l1, l2)),
            ),
        };
        match new_value {
            Some(v) => {
                self.value = v;
            },
            None => {},
        }
        Ok(())
    }

    fn value(&self) -> &StringWeightVariant {
        &self.value
    }

    fn take_value(self) -> StringWeightVariant {
        self.value
    }

    fn set_value(&mut self, value: StringWeightVariant) {
        self.value = value;
    }

    fn properties() -> SemiringProperties {
        SemiringProperties {
            left_semiring: true,
            right_semiring: false,
            commutative: false,
            idempotent: true,
            path: false,
        }
    }

    proof fn lemma_plus_zero(a: StringV) {
        match a {
            StringV::Infinity => {},
            StringV::Labels(_) => {},
        }
    }

    proof fn lemma_plus_assoc(a: StringV, b: StringV, c: StringV) {
        match (a, b, c) {
            (StringV::Labels(x), StringV::Labels(y), StringV::Labels(z)) => {
                lemma_lcp_assoc(x, y, z);
            },
            _ => {},
        }
    }

    proof fn lemma_plus_commute(a: StringV, b: StringV) {
    }

    proof fn lemma_times_assoc(a: StringV, b: StringV, c: StringV) {
        match (a, b, c) {
            (StringV::Labels(x), StringV::Labels(y), StringV::Labels(z)) => {
                assert((x + y) + z =~= x + (y + z));
            },
            _ => {},
        }
    }

    proof fn lemma_times_one(a: StringV) {
        match a {
            StringV::Infinity => {},
            StringV::Labels(x) => {
                assert(Seq::<Label>::empty() + x =~= x);
                assert(x + Seq::<Label>::empty() =~= x);
            },
        }
    }

    proof fn lemma_times_zero(a: StringV) {
    }

    proof fn lemma_distribute_left(a: StringV, b: StringV, c: StringV) {
        match (a, b, c) {
            (StringV::Labels(x), StringV::Labels(y), StringV::Labels(z)) => {
                lemma_lcp_prepend(x, y, z);
            },
            _ => {},
        }
    }

    proof fn lemma_distribute_right(a: StringV, b: StringV, c: StringV) {
    }
}

impl WeaklyDivisibleSemiring for StringWeightLeft {
    open spec fn divide_ok(a: StringV, b: StringV, divide_type: DivideType) -> bool {
        divide_type == DivideType::DivideLeft && b is Labels
    }

    open spec fn sv_divide(a: StringV, b: StringV, divide_type: DivideType) -> StringV {
        sv_divide_left(a, b)
    }

    fn divide_assign(&mut self, rhs: &Self, divide_type: DivideType) -> Result<(), SemiringError> {
        if divide_type != DivideType::DivideLeft {
            return Err(SemiringError::UndefinedDivision);
        }
        let rhs_ok = match &rhs.value {
            StringWeightVariant::Labels(_) => true,
            StringWeightVariant::Infinity => false,
        };
        if !rhs_ok {
            return Err(SemiringError::UndefinedDivision);
        }
        let v = divide_left(&self.value, &rhs.value);
        self.value = v;
        Ok(())
    }
}


impl View for StringWeightRight {
    type V = StringV;

    closed spec fn view(&self) -> StringV {
        self.value@
    }
}

impl StringWeightRight {
    /// Number of labels held; zero for `Infinity`.
    pub fn len_labels(&self) -> (r: usize)
        ensures
            r == (match self@ {
                StringV::Infinity => 0int,
                StringV::Labels(l) => l.len() as int,
            }),
    {
        match &self.value {
            StringWeightVariant::Infinity => 0,
            StringWeightVariant::Labels(l) => l.len(),
        }
    }
}

impl PartialEq for StringWeightRight {
    fn eq(&self, other: &Self) -> bool {
        self.value == other.value
    }
}

impl vstd::std_specs::cmp::PartialEqSpecImpl for StringWeightRight {
    open spec fn obeys_eq_spec() -> bool {
        true
    }

    open spec fn eq_spec(&self, other: &Self) -> bool {
        self@ == other@
    }
}

impl Semiring for StringWeightRight {
    type Type = StringWeightVariant;

    open spec fn type_view(t: StringWeightVariant) -> StringV {
        t@
    }

    open spec fn sv_zero() -> StringV {
        StringV::Infinity
    }

    open spec fn sv_one() -> StringV {
        StringV::Labels(Seq::empty())
    }

    open spec fn plus_ok(a: StringV, b: StringV) -> bool {
        true
    }

    open spec fn sv_plus(a: StringV, b: StringV) -> StringV {
        sv_plus_right(a, b)
    }

    open spec fn times_ok(a: StringV, b: StringV) -> bool {
        true
    }

    open spec fn sv_times(a: StringV, b: StringV) -> StringV {
        sv_times_str(a, b)
    }

    open spec fn props_spec() -> SemiringProperties {
        SemiringProperties {
            left_semiring: false,
            right_semiring: true,
            commutative: false,
            idempotent: true,
            path: false,
        }
    }

    fn new(value: StringWeightVariant) -> Self {
        StringWeightRight { value }
    }

    fn zero() -> Self {
        StringWeightRight { value: StringWeightVariant::Infinity }
    }

    fn one() -> (r: Self) {
        let r = StringWeightRight { value: StringWeightVariant::Labels(Vec::new()) };
        proof {
            assert(r@ ->Labels_0 =~= Seq::<Label>::empty());
        }
        r
    }

    fn is_zero(&self) -> bool {
        match &self.value {
            StringWeightVariant::Infinity => true,
            StringWeightVariant::Labels(_) => false,
        }
    }

    fn is_one(&self) -> (r: bool) {
        let r = match &self.value {
            StringWeightVariant::Infinity => false,
            StringWeightVariant::Labels(l) => l.len() == 0,
        };
        proof {
            if self@ is Labels {
                if self@ ->Labels_0 =~= Seq::<Label>::empty() {
                }
            }
        }
        r
    }

    fn eq_weight(&self, other: &Self) -> bool {
        self.value == other.value
    }

    fn sclone(&self) -> Self {
        StringWeightRight { value: self.value.sclone() }
    }

    fn plus_assign(&mut self, rhs: &Self) -> Result<(), SemiringError> {
        let new_value = match (&self.value, &rhs.value) {
            (StringWeightVariant::Infinity, _) => Some(rhs.value.sclone()),
            (_, StringWeightVariant::Infinity) => None,
            (StringWeightVariant::Labels(l1), StringWeightVariant::Labels(l2)) => Some(
                StringWeightVariant::Labels(lcs_labels(l1, l2)),
            ),
        };
        match new_value {
            Some(v) => {
                self.value = v;
            },
            None => {},
        }
        Ok(())
    }

    fn times_assign(&mut self, rhs: &Self) -> Result<(), SemiringError> {
        let new_value = match (&self.value, &rhs.value) {
            (StringWeightVariant::Infinity, _) => None,
            (StringWeightVariant::Labels(_), StringWeightVariant::Infinity) => Some(
                StringWeightVariant::Infinity,
            ),
            (StringWeightVariant::Labels(l1), StringWeightVariant::Labels(l2)) => Some(
                StringWeightVariant::Labels(concat_labels(l1, l2)),
            ),
        };
        match new_value {
            Some(v) => {
                self.value = v;
            },
            None => {},
        }
        Ok(())
    }

    fn value(&self) -> &StringWeightVariant {
        &self.value
    }

    fn take_value(self) -> StringWeightVariant {
        self.value
    }

    fn set_value(&mut self, value: StringWeightVariant) {
        self.value = value;
    }

    fn properties() -> SemiringProperties {
        SemiringProperties {
            left_semiring: false,
            right_semiring: true,
            commutative: false,
            idempotent: true,
            path: false,
        }
    }

    proof fn lemma_plus_zero(a: StringV) {
        match a {
            StringV::Infinity => {},
            StringV::Labels(_) => {},
        }
    }

    proof fn lemma_plus_assoc(a: StringV, b: StringV, c: StringV) {
        match (a, b, c) {
            (StringV::Labels(x), StringV::Labels(y), StringV::Labels(z)) => {
                lemma_lcs_assoc(x, y, z);
            },
            _ => {},
        }
    }

    proof fn lemma_plus_commute(a: StringV, b: StringV) {
    }

    proof fn lemma_times_assoc(a: StringV, b: StringV, c: StringV) {
        match (a, b, c) {
            (StringV::Labels(x), StringV::Labels(y), StringV::Labels(z)) => {
                assert((x + y) + z =~= x + (y + z));
            },
            _ => {},
        }
    }

    proof fn lemma_times_one(a: StringV) {
        match a {
            StringV::Infinity => {},
            StringV::Labels(x) => {
                assert(Seq::<Label>::empty() + x =~= x);
                assert(x + Seq::<Label>::empty() =~= x);
            },
        }
    }

    proof fn lemma_times_zero(a: StringV) {
    }

    proof fn lemma_distribute_left(a: StringV, b: StringV, c: StringV) {
    }

    proof fn lemma_distribute_right(a: StringV, b: StringV, c: StringV) {
        match (a, b, c) {
            (StringV::Labels(x), StringV::Labels(y), StringV::Labels(z)) => {
                lemma_lcs_append(x, y, z);
            },
            _ => {},
        }
    }
}

impl WeaklyDivisibleSemiring for StringWeightRight {
    open spec fn divide_ok(a: StringV, b: StringV, divide_type: DivideType) -> bool {
        divide_type == DivideType::DivideRight && b is Labels
    }

    open spec fn sv_divide(a: StringV, b: StringV, divide_type: DivideType) -> StringV {
        sv_divide_right(a, b)
    }

    fn divide_assign(&mut self, rhs: &Self, divide_type: DivideType) -> Result<(), SemiringError> {
        if divide_type != DivideType::DivideRight {
            return Err(SemiringError::UndefinedDivision);
        }
        let rhs_ok = match &rhs.value {
            StringWeightVariant::Labels(_) => true,
            StringWeightVariant::Infinity => false,
        };
        if !rhs_ok {
            return Err(SemiringError::UndefinedDivision);
        }
        let v = divide_right(&self.value, &rhs.value);
        self.value = v;
        Ok(())
    }
}

impl View for StringWeightRestrict {
    type V = StringV;

    closed spec fn view(&self) -> StringV {
        self.value@
    }
}

impl StringWeightRestrict {
    /// Number of labels held; zero for `Infinity`.
    pub fn len_labels(&self) -> (r: usize)
        ensures
            r == (match self@ {
                StringV::Infinity => 0int,
                StringV::Labels(l) => l.len() as int,
            }),
    {
        match &self.value {
            StringWeightVariant::Infinity => 0,
            StringWeightVariant::Labels(l) => l.len(),
        }
    }
}

impl PartialEq for StringWeightRestrict {
    fn eq(&self, other: &Self) -> bool {
        self.value == other.value
    }
}

impl vstd::std_specs::cmp::PartialEqSpecImpl for StringWeightRestrict {
    open spec fn obeys_eq_spec() -> bool {
        true
    }

    open spec fn eq_spec(&self, other: &Self) -> bool {
        self@ == other@
    }
}

impl Semiring for StringWeightRestrict {
    type Type = StringWeightVariant;

    open spec fn type_view(t: StringWeightVariant) -> StringV {
        t@
    }

    open spec fn sv_zero() -> StringV {
        StringV::Infinity
    }

    open spec fn sv_one() -> StringV {
        StringV::Labels(Seq::empty())
    }

    open spec fn plus_ok(a: StringV, b: StringV) -> bool {
        a is Infinity || b is Infinity || a == b
    }

    open spec fn sv_plus(a: StringV, b: StringV) -> StringV {
        sv_plus_restrict(a, b)
    }

    open spec fn times_ok(a: StringV, b: StringV) -> bool {
        true
    }

    open spec fn sv_times(a: StringV, b: StringV) -> StringV {
        sv_times_str(a, b)
    }

    open spec fn props_spec() -> SemiringProperties {
        SemiringProperties {
            left_semiring: true,
            right_semiring: true,
            commutative: false,
            idempotent: true,
            path: false,
        }
    }

    fn new(value: StringWeightVariant) -> Self {
        StringWeightRestrict { value }
    }

    fn zero() -> Self {
        StringWeightRestrict { value: StringWeightVariant::Infinity }
    }

    fn one() -> (r: Self) {
        let r = StringWeightRestrict { value: StringWeightVariant::Labels(Vec::new()) };
        proof {
            assert(r@ ->Labels_0 =~= Seq::<Label>::empty());
        }
        r
    }

    fn is_zero(&self) -> bool {
        match &self.value {
            StringWeightVariant::Infinity => true,
            StringWeightVariant::Labels(_) => false,
        }
    }

    fn is_one(&self) -> (r: bool) {
        let r = match &self.value {
            StringWeightVariant::Infinity => false,
            StringWeightVariant::Labels(l) => l.len() == 0,
        };
        proof {
            if self@ is Labels {
                if self@ ->Labels_0 =~= Seq::<Label>::empty() {
                }
            }
        }
        r
    }

    fn eq_weight(&self, other: &Self) -> bool {
        self.value == other.value
    }

    fn sclone(&self) -> Self {
        StringWeightRestrict { value: self.value.sclone() }
    }

    fn plus_assign(&mut self, rhs: &Self) -> Result<(), SemiringError> {
        let decision: Result<Option<StringWeightVariant>, SemiringError> = match (
            &self.value,
            &rhs.value,
        ) {
            (StringWeightVariant::Infinity, _) => Ok(Some(rhs.value.sclone())),
            (_, StringWeightVariant::Infinity) => Ok(None),
            (StringWeightVariant::Labels(l1), StringWeightVariant::Labels(l2)) => {
                let same = l1 == l2;
                proof {
                    if same {
                        assert(l1@ =~= l2@);
                    }
                }
                if same {
                    Ok(None)
                } else {
                    Err(SemiringError::NonFunctional)
                }
            },
        };
        match decision {
            Ok(Some(v)) => {
                self.value = v;
                Ok(())
            },
            Ok(None) => Ok(()),
            Err(e) => Err(e),
        }
    }

    fn times_assign(&mut self, rhs: &Self) -> Result<(), SemiringError> {
        let new_value = match (&self.value, &rhs.value) {
            (StringWeightVariant::Infinity, _) => None,
            (StringWeightVariant::Labels(_), StringWeightVariant::Infinity) => Some(
                StringWeightVariant::Infinity,
            ),
            (StringWeightVariant::Labels(l1), StringWeightVariant::Labels(l2)) => Some(
                StringWeightVariant::Labels(concat_labels(l1, l2)),
            ),
        };
        match new_value {
            Some(v) => {
                self.value = v;
            },
            None => {},
        }
        Ok(())
    }

    fn value(&self) -> &StringWeightVariant {
        &self.value
    }

    fn take_value(self) -> StringWeightVariant {
        self.value
    }

    fn set_value(&mut self, value: StringWeightVariant) {
        self.value = value;
    }

    fn properties() -> SemiringProperties {
        SemiringProperties {
            left_semiring: true,
            right_semiring: true,
            commutative: false,
            idempotent: true,
            path: false,
        }
    }

    proof fn lemma_plus_zero(a: StringV) {
        match a {
            StringV::Infinity => {},
            StringV::Labels(_) => {},
        }
    }

    proof fn lemma_plus_assoc(a: StringV, b: StringV, c: StringV) {
    }

    proof fn lemma_plus_commute(a: StringV, b: StringV) {
    }

    proof fn lemma_times_assoc(a: StringV, b: StringV, c: StringV) {
        match (a, b, c) {
            (StringV::Labels(x), StringV::Labels(y), StringV::Labels(z)) => {
                assert((x + y) + z =~= x + (y + z));
            },
            _ => {},
        }
    }

    proof fn lemma_times_one(a: StringV) {
        match a {
            StringV::Infinity => {},
            StringV::Labels(x) => {
                assert(Seq::<Label>::empty() + x =~= x);
                assert(x + Seq::<Label>::empty() =~= x);
            },
        }
    }

    proof fn lemma_times_zero(a: StringV) {
    }

    proof fn lemma_distribute_left(a: StringV, b: StringV, c: StringV) {
    }

    proof fn lemma_distribute_right(a: StringV, b: StringV, c: StringV) {
    }
}

impl WeaklyDivisibleSemiring for StringWeightRestrict {
    open spec fn divide_ok(a: StringV, b: StringV, divide_type: DivideType) -> bool {
        (divide_type == DivideType::DivideLeft || divide_type == DivideType::DivideRight)
            && b is Labels
    }

    open spec fn sv_divide(a: StringV, b: StringV, divide_type: DivideType) -> StringV {
        if divide_type == DivideType::DivideLeft {
            sv_divide_left(a, b)
        } else {
            sv_divide_right(a, b)
        }
    }

    fn divide_assign(&mut self, rhs: &Self, divide_type: DivideType) -> Result<(), SemiringError> {
        let is_left = divide_type == DivideType::DivideLeft;
        let is_right = divide_type == DivideType::DivideRight;
        if !is_left && !is_right {
            return Err(SemiringError::UndefinedDivision);
        }
        let rhs_ok = match &rhs.value {
            StringWeightVariant::Labels(_) => true,
            StringWeightVariant::Infinity => false,
        };
        if !rhs_ok {
            return Err(SemiringError::UndefinedDivision);
        }
        let v = if is_left {
            divide_left(&self.value, &rhs.value)
        } else {
            divide_right(&self.value, &rhs.value)
        };
        self.value = v;
        Ok(())
    }
}


impl ReverseSemiring for StringWeightLeft {
    type Rev = StringWeightRight;

    open spec fn sv_rev(a: StringV) -> StringV {
        match a {
            StringV::Infinity => StringV::Infinity,
            StringV::Labels(l) => StringV::Labels(l.reverse()),
        }
    }

    fn reverse(&self) -> Result<StringWeightRight, SemiringError> {
        Ok(StringWeightRight { value: self.value.reverse() })
    }
}

impl ReverseSemiring for StringWeightRight {
    type Rev = StringWeightLeft;

    open spec fn sv_rev(a: StringV) -> StringV {
        match a {
            StringV::Infinity => StringV::Infinity,
            StringV::Labels(l) => StringV::Labels(l.reverse()),
        }
    }

    fn reverse(&self) -> Result<StringWeightLeft, SemiringError> {
        Ok(StringWeightLeft { value: self.value.reverse() })
    }
}

impl ReverseSemiring for StringWeightRestrict {
    type Rev = StringWeightRestrict;

    open spec fn sv_rev(a: StringV) -> StringV {
        match a {
            StringV::Infinity => StringV::Infinity,
            StringV::Labels(l) => StringV::Labels(l.reverse()),
        }
    }

    fn reverse(&self) -> Result<StringWeightRestrict, SemiringError> {
        Ok(StringWeightRestrict { value: self.value.reverse() })
    }
}

} // verus!
