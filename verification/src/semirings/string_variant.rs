//! The carrier of the string semirings: either `Infinity` (the additive
//! zero) or a finite ordered sequence of labels.

use vstd::prelude::*;

use crate::Label;

verus! {

/// Mathematical view of a string weight value.
#[verifier::ext_equal]
pub ghost enum StringV {
    /// The additive zero of the string semirings.
    Infinity,
    /// A finite label string; the empty string is the multiplicative one.
    Labels(Seq<Label>),
}

/// Value of a string weight: `Infinity` or a finite label string.
#[derive(Clone, Debug)]
pub enum StringWeightVariant {
    /// The additive zero of the string semirings.
    Infinity,
    /// A finite label string; the empty vector is the multiplicative one.
    Labels(Vec<Label>),
}

impl View for StringWeightVariant {
    type V = StringV;

    open spec fn view(&self) -> StringV {
        match self {
            StringWeightVariant::Infinity => StringV::Infinity,
            StringWeightVariant::Labels(v) => StringV::Labels(v@),
        }
    }
}

impl StringWeightVariant {
    /// A copy of this value with the same view.
    pub fn sclone(&self) -> (r: Self)
        ensures
            r@ == self@,
    {
        match self {
            StringWeightVariant::Infinity => StringWeightVariant::Infinity,
            StringWeightVariant::Labels(v) => StringWeightVariant::Labels(v.clone()),
        }
    }

    /// This value with the label string reversed; `Infinity` stays.
    pub fn reverse(&self) -> (r: Self)
        ensures
            r@ == (match self@ {
                StringV::Infinity => StringV::Infinity,
                StringV::Labels(l) => StringV::Labels(l.reverse()),
            }),
    {
        match self {
            StringWeightVariant::Infinity => StringWeightVariant::Infinity,
            StringWeightVariant::Labels(v) => {
                let mut out: Vec<Label> = Vec::new();
                let mut i: usize = v.len();
                while i > 0
                    invariant
                        i <= v@.len(),
                        out@.len() == v@.len() - i,
                        forall|j: int|
                            0 <= j < out@.len() ==> #[trigger] out@[j] == v@[v@.len() - 1 - j],
                    decreases i,
                {
                    i = i - 1;
                    out.push(v[i]);
                }
                proof {
                    assert(out@ =~= v@.reverse());
                }
                StringWeightVariant::Labels(out)
            },
        }
    }
}

impl PartialEq for StringWeightVariant {
    fn eq(&self, other: &Self) -> bool {
        match (self, other) {
            (StringWeightVariant::Infinity, StringWeightVariant::Infinity) => true,
            (StringWeightVariant::Labels(a), StringWeightVariant::Labels(b)) => {
                let r = a == b;
                proof {
                    if r {
                        assert(a@ =~= b@);
                    }
                }
                r
            },
            _ => false,
        }
    }
}

impl vstd::std_specs::cmp::PartialEqSpecImpl for StringWeightVariant {
    open spec fn obeys_eq_spec() -> bool {
        true
    }

    open spec fn eq_spec(&self, other: &Self) -> bool {
        self@ == other@
    }
}

/// The longest common prefix of two label strings.
pub open spec fn lcp(a: Seq<Label>, b: Seq<Label>) -> Seq<Label>
    decreases a.len(),
{
    if a.len() == 0 || b.len() == 0 {
        Seq::empty()
    } else if a.first() == b.first() {
        seq![a.first()] + lcp(a.drop_first(), b.drop_first())
    } else {
        Seq::empty()
    }
}

/// The longest common suffix of two label strings.
pub open spec fn lcs(a: Seq<Label>, b: Seq<Label>) -> Seq<Label>
    decreases a.len(),
{
    if a.len() == 0 || b.len() == 0 {
        Seq::empty()
    } else if a.last() == b.last() {
        lcs(a.drop_last(), b.drop_last()).push(a.last())
    } else {
        Seq::empty()
    }
}

/// The longest common prefix is associative.
pub proof fn lemma_lcp_assoc(a: Seq<Label>, b: Seq<Label>, c: Seq<Label>)
    ensures
        lcp(lcp(a, b), c) == lcp(a, lcp(b, c)),
    decreases a.len(),
{
    if a.len() == 0 || b.len() == 0 || c.len() == 0 {
        assert(lcp(lcp(a, b), c) =~= lcp(a, lcp(b, c)));
    } else if a.first() == b.first() && b.first() == c.first() {
        lemma_lcp_assoc(a.drop_first(), b.drop_first(), c.drop_first());
        let h = a.first();
        let x = lcp(a.drop_first(), b.drop_first());
        let y = lcp(b.drop_first(), c.drop_first());
        assert(lcp(a, b) == seq![h] + x);
        assert(lcp(b, c) == seq![h] + y);
        assert((seq![h] + x).len() > 0);
        assert((seq![h] + x).first() == h);
        assert((seq![h] + x).drop_first() =~= x);
        assert((seq![h] + y).first() == h);
        assert((seq![h] + y).drop_first() =~= y);
        assert(lcp(seq![h] + x, c) == seq![h] + lcp(x, c.drop_first()));
        assert(lcp(a, seq![h] + y) == seq![h] + lcp(a.drop_first(), y));
    } else {
        if a.first() != b.first() {
            assert(lcp(a, b) =~= Seq::<Label>::empty());
            assert(lcp(lcp(a, b), c) =~= Seq::<Label>::empty());
            if b.first() == c.first() {
                let y = lcp(b.drop_first(), c.drop_first());
                assert(lcp(b, c) == seq![b.first()] + y);
                assert((seq![b.first()] + y).first() == b.first());
                assert(lcp(a, lcp(b, c)) =~= Seq::<Label>::empty());
            } else {
                assert(lcp(b, c) =~= Seq::<Label>::empty());
                assert(lcp(a, lcp(b, c)) =~= Seq::<Label>::empty());
            }
        } else {
            // a.first() == b.first() but b.first() != c.first()
            assert(lcp(b, c) =~= Seq::<Label>::empty());
            assert(lcp(a, lcp(b, c)) =~= Seq::<Label>::empty());
            let x = lcp(a.drop_first(), b.drop_first());
            assert(lcp(a, b) == seq![a.first()] + x);
            assert((seq![a.first()] + x).first() == a.first());
            assert(lcp(lcp(a, b), c) =~= Seq::<Label>::empty());
        }
    }
}

/// Concatenation distributes over the longest common prefix from the left.
pub proof fn lemma_lcp_prepend(x: Seq<Label>, y: Seq<Label>, z: Seq<Label>)
    ensures
        lcp(x + y, x + z) == x + lcp(y, z),
    decreases x.len(),
{
    if x.len() == 0 {
        assert(x + y =~= y);
        assert(x + z =~= z);
        assert(x + lcp(y, z) =~= lcp(y, z));
    } else {
        lemma_lcp_prepend(x.drop_first(), y, z);
        let h = x.first();
        assert((x + y).len() > 0);
        assert((x + y).first() == h);
        assert((x + z).first() == h);
        assert((x + y).drop_first() =~= x.drop_first() + y);
        assert((x + z).drop_first() =~= x.drop_first() + z);
        assert(lcp(x + y, x + z) == seq![h] + (x.drop_first() + lcp(y, z)));
        assert(seq![h] + (x.drop_first() + lcp(y, z)) =~= x + lcp(y, z));
    }
}

/// The longest common suffix is associative.
pub proof fn lemma_lcs_assoc(a: Seq<Label>, b: Seq<Label>, c: Seq<Label>)
    ensures
        lcs(lcs(a, b), c) == lcs(a, lcs(b, c)),
    decreases a.len(),
{
    if a.len() == 0 || b.len() == 0 || c.len() == 0 {
        assert(lcs(lcs(a, b), c) =~= lcs(a, lcs(b, c)));
    } else if a.last() == b.last() && b.last() == c.last() {
        lemma_lcs_assoc(a.drop_last(), b.drop_last(), c.drop_last());
        let h = a.last();
        let x = lcs(a.drop_last(), b.drop_last());
        let y = lcs(b.drop_last(), c.drop_last());
        assert(lcs(a, b) == x.push(h));
        assert(lcs(b, c) == y.push(h));
        assert(x.push(h).len() > 0);
        assert(x.push(h).last() == h);
        assert(x.push(h).drop_last() =~= x);
        assert(y.push(h).last() == h);
        assert(y.push(h).drop_last() =~= y);
        assert(lcs(x.push(h), c) == lcs(x, c.drop_last()).push(h));
        assert(lcs(a, y.push(h)) == lcs(a.drop_last(), y).push(h));
    } else {
        if a.last() != b.last() {
            assert(lcs(a, b) =~= Seq::<Label>::empty());
            assert(lcs(lcs(a, b), c) =~= Seq::<Label>::empty());
            if b.last() == c.last() {
                let y = lcs(b.drop_last(), c.drop_last());
                assert(lcs(b, c) == y.push(b.last()));
                assert(y.push(b.last()).last() == b.last());
                assert(lcs(a, lcs(b, c)) =~= Seq::<Label>::empty());
            } else {
                assert(lcs(b, c) =~= Seq::<Label>::empty());
                assert(lcs(a, lcs(b, c)) =~= Seq::<Label>::empty());
            }
        } else {
            assert(lcs(b, c) =~= Seq::<Label>::empty());
            assert(lcs(a, lcs(b, c)) =~= Seq::<Label>::empty());
            let x = lcs(a.drop_last(), b.drop_last());
            assert(lcs(a, b) == x.push(a.last()));
            assert(x.push(a.last()).last() == a.last());
            assert(lcs(lcs(a, b), c) =~= Seq::<Label>::empty());
        }
    }
}

/// Concatenation distributes over the longest common suffix from the
/// right.
pub proof fn lemma_lcs_append(y: Seq<Label>, z: Seq<Label>, x: Seq<Label>)
    ensures
        lcs(y + x, z + x) == lcs(y, z) + x,
    decreases x.len(),
{
    if x.len() == 0 {
        assert(y + x =~= y);
        assert(z + x =~= z);
        assert(lcs(y, z) + x =~= lcs(y, z));
    } else {
        lemma_lcs_append(y, z, x.drop_last());
        let h = x.last();
        assert((y + x).len() > 0);
        assert((y + x).last() == h);
        assert((z + x).last() == h);
        assert((y + x).drop_last() =~= y + x.drop_last());
        assert((z + x).drop_last() =~= z + x.drop_last());
        assert(lcs(y + x, z + x) == (lcs(y, z) + x.drop_last()).push(h));
        assert((lcs(y, z) + x.drop_last()).push(h) =~= lcs(y, z) + x);
    }
}

/// Computes the longest common prefix of two label vectors.
pub fn lcp_labels(a: &Vec<Label>, b: &Vec<Label>) -> (r: Vec<Label>)
    ensures
        r@ == lcp(a@, b@),
{
    let mut out: Vec<Label> = Vec::new();
    let mut i: usize = 0;
    proof {
        assert(a@.skip(0) =~= a@);
        assert(b@.skip(0) =~= b@);
        assert(Seq::<Label>::empty() + lcp(a@, b@) =~= lcp(a@, b@));
    }
    while i < a.len() && i < b.len() && a[i] == b[i]
        invariant
            i <= a@.len(),
            i <= b@.len(),
            out@.len() == i,
            forall|j: int| 0 <= j < i ==> #[trigger] a@[j] == b@[j],
            forall|j: int| 0 <= j < i ==> #[trigger] out@[j] == a@[j],
            out@ + lcp(a@.skip(i as int), b@.skip(i as int)) == lcp(a@, b@),
        decreases a@.len() - i,
    {
        proof {
            let sa = a@.skip(i as int);
            let sb = b@.skip(i as int);
            assert(sa.first() == a@[i as int]);
            assert(sb.first() == b@[i as int]);
            assert(sa.drop_first() =~= a@.skip(i + 1));
            assert(sb.drop_first() =~= b@.skip(i + 1));
            assert(lcp(sa, sb) == seq![a@[i as int]] + lcp(a@.skip(i + 1), b@.skip(i + 1)));
            assert((out@ + seq![a@[i as int]]) + lcp(a@.skip(i + 1), b@.skip(i + 1)) =~= out@ + (
            seq![a@[i as int]] + lcp(a@.skip(i + 1), b@.skip(i + 1))));
        }
        out.push(a[i]);
        i = i + 1;
    }
    proof {
        let sa = a@.skip(i as int);
        let sb = b@.skip(i as int);
        assert(lcp(sa, sb) =~= Seq::<Label>::empty());
        assert(out@ + Seq::<Label>::empty() =~= out@);
    }
    out
}

/// A suffix-match count determines the longest common suffix.
proof fn lemma_lcs_from_count(a: Seq<Label>, b: Seq<Label>, k: int)
    requires
        0 <= k <= a.len(),
        k <= b.len(),
        forall|j: int| 0 <= j < k ==> #[trigger] a[a.len() - 1 - j] == b[b.len() - 1 - j],
        k == a.len() || k == b.len() || a[a.len() - 1 - k] != b[b.len() - 1 - k],
    ensures
        lcs(a, b) == a.skip(a.len() - k),
    decreases k,
{
    if k == 0 {
        assert(lcs(a, b) =~= a.skip(a.len() as int));
    } else {
        assert(a.last() == b.last()) by {
            assert(a[a.len() - 1 - 0] == b[b.len() - 1 - 0]);
        }
        assert forall|j: int|
            0 <= j < k - 1 implies #[trigger] a.drop_last()[a.drop_last().len() - 1 - j]
                == b.drop_last()[b.drop_last().len() - 1 - j] by {
            assert(a[a.len() - 1 - (j + 1)] == b[b.len() - 1 - (j + 1)]);
            assert(a.drop_last()[a.len() - 2 - j] == a[a.len() - 2 - j]);
            assert(b.drop_last()[b.len() - 2 - j] == b[b.len() - 2 - j]);
        }
        if k < a.len() && k < b.len() {
            assert(a.drop_last()[a.drop_last().len() - 1 - (k - 1)] == a[a.len() - 1 - k]);
            assert(b.drop_last()[b.drop_last().len() - 1 - (k - 1)] == b[b.len() - 1 - k]);
        }
        lemma_lcs_from_count(a.drop_last(), b.drop_last(), k - 1);
        assert(lcs(a, b) == lcs(a.drop_last(), b.drop_last()).push(a.last()));
        assert(a.drop_last().skip(a.len() - k).push(a.last()) =~= a.skip(a.len() - k));
    }
}

/// Computes the longest common suffix of two label vectors.
pub fn lcs_labels(a: &Vec<Label>, b: &Vec<Label>) -> (r: Vec<Label>)
    ensures
        r@ == lcs(a@, b@),
{
    let la = a.len();
    let lb = b.len();
    let mut k: usize = 0;
    while k < la && k < lb && a[la - 1 - k] == b[lb - 1 - k]
        invariant
            la == a@.len(),
            lb == b@.len(),
            k <= la,
            k <= lb,
            forall|j: int| 0 <= j < k ==> #[trigger] a@[la - 1 - j] == b@[lb - 1 - j],
        decreases la - k,
    {
        k = k + 1;
    }
    proof {
        lemma_lcs_from_count(a@, b@, k as int);
    }
    let mut out: Vec<Label> = Vec::new();
    let mut i: usize = la - k;
    while i < la
        invariant
            la == a@.len(),
            la - k <= i <= la,
            out@.len() == i - (la - k),
            forall|j: int| 0 <= j < out@.len() ==> #[trigger] out@[j] == a@[la - k + j],
        decreases la - i,
    {
        out.push(a[i]);
        i = i + 1;
    }
    proof {
        assert(out@ =~= a@.skip(la - k));
    }
    out
}

/// Left division of label strings: removes a prefix of the divisor's
/// length.  Undefined when the dividend is a label string and the divisor
/// is `Infinity`, or when both are `Infinity`.
pub fn divide_left(w1: &StringWeightVariant, w2: &StringWeightVariant) -> (r: StringWeightVariant)
    requires
        !(w1@ is Infinity && w2@ is Infinity),
        !(w1@ is Labels && w2@ is Infinity),
    ensures
        r@ == sv_divide_left(w1@, w2@),
{
    match (w1, w2) {
        (StringWeightVariant::Infinity, StringWeightVariant::Labels(_)) => {
            StringWeightVariant::Infinity
        },
        (StringWeightVariant::Labels(l1), StringWeightVariant::Labels(l2)) => {
            let mut out: Vec<Label> = Vec::new();
            let mut i: usize = if l2.len() < l1.len() {
                l2.len()
            } else {
                l1.len()
            };
            let ghost start = i as int;
            while i < l1.len()
                invariant
                    start <= i <= l1@.len(),
                    out@.len() == i - start,
                    forall|j: int| 0 <= j < out@.len() ==> #[trigger] out@[j] == l1@[start + j],
                decreases l1@.len() - i,
            {
                out.push(l1[i]);
                i = i + 1;
            }
            proof {
                assert(out@ =~= l1@.skip(start));
            }
            StringWeightVariant::Labels(out)
        },
        _ => StringWeightVariant::Infinity,
    }
}

/// The view of [`divide_left`]: the dividend without a prefix of the
/// divisor's length.
pub open spec fn sv_divide_left(a: StringV, b: StringV) -> StringV {
    match (a, b) {
        (StringV::Infinity, _) => StringV::Infinity,
        (StringV::Labels(l1), StringV::Labels(l2)) => if l2.len() >= l1.len() {
            StringV::Labels(Seq::empty())
        } else {
            StringV::Labels(l1.skip(l2.len() as int))
        },
        (StringV::Labels(l1), StringV::Infinity) => StringV::Labels(l1),
    }
}

/// Right division of label strings: removes a suffix of the divisor's
/// length.  Undefined when the dividend is a label string and the divisor
/// is `Infinity`, or when both are `Infinity`.
pub fn divide_right(w1: &StringWeightVariant, w2: &StringWeightVariant) -> (r: StringWeightVariant)
    requires
        !(w1@ is Infinity && w2@ is Infinity),
        !(w1@ is Labels && w2@ is Infinity),
    ensures
        r@ == sv_divide_right(w1@, w2@),
{
    match (w1, w2) {
        (StringWeightVariant::Infinity, StringWeightVariant::Labels(_)) => {
            StringWeightVariant::Infinity
        },
        (StringWeightVariant::Labels(l1), StringWeightVariant::Labels(l2)) => {
            let keep = if l2.len() < l1.len() {
                l1.len() - l2.len()
            } else {
                0
            };
            let mut out: Vec<Label> = Vec::new();
            let mut i: usize = 0;
            while i < keep
                invariant
                    keep <= l1@.len(),
                    i <= keep,
                    out@.len() == i,
                    forall|j: int| 0 <= j < i ==> #[trigger] out@[j] == l1@[j],
                decreases keep - i,
            {
                out.push(l1[i]);
                i = i + 1;
            }
            proof {
                assert(out@ =~= l1@.take(keep as int));
            }
            StringWeightVariant::Labels(out)
        },
        _ => StringWeightVariant::Infinity,
    }
}

/// The view of [`divide_right`]: the dividend without a suffix of the
/// divisor's length.
pub open spec fn sv_divide_right(a: StringV, b: StringV) -> StringV {
    match (a, b) {
        (StringV::Infinity, _) => StringV::Infinity,
        (StringV::Labels(l1), StringV::Labels(l2)) => if l2.len() >= l1.len() {
            StringV::Labels(Seq::empty())
        } else {
            StringV::Labels(l1.take(l1.len() - l2.len()))
        },
        (StringV::Labels(l1), StringV::Infinity) => StringV::Labels(l1),
    }
}

} // verus!
