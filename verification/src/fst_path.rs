//! Paths: the observable traces of an FST, made of the input labels read,
//! the output labels emitted, and the product of the weights crossed.

use vstd::prelude::*;

use crate::errors::SemiringError;
use crate::semirings::semiring::Semiring;
use crate::{Label, EPS_LABEL};

verus! {

/// Mathematical view of a path, over the view `WV` of its weight type.
#[verifier::ext_equal]
pub ghost struct PathV<WV> {
    /// Input labels read along the path, epsilon omitted.
    pub ilabels: Seq<Label>,
    /// Output labels emitted along the path, epsilon omitted.
    pub olabels: Seq<Label>,
    /// Product of the weights along the path, as a view.
    pub weight: WV,
}

/// A path recognized by an FST.
#[derive(Clone, Debug)]
pub struct FstPath<W: Semiring> {
    /// Input labels read along the path, epsilon omitted.
    pub ilabels: Vec<Label>,
    /// Output labels emitted along the path, epsilon omitted.
    pub olabels: Vec<Label>,
    /// Product of the weights along the path.
    pub weight: W,
}

impl<W: Semiring> View for FstPath<W> {
    type V = PathV<<W as View>::V>;

    open spec fn view(&self) -> PathV<<W as View>::V> {
        PathV { ilabels: self.ilabels@, olabels: self.olabels@, weight: self.weight@ }
    }
}

impl<W: Semiring> FstPath<W> {
    /// Builds a path from its three components.
    pub fn new(ilabels: Vec<Label>, olabels: Vec<Label>, weight: W) -> (r: Self)
        ensures
            r@ == (PathV { ilabels: ilabels@, olabels: olabels@, weight: weight@ }),
    {
        FstPath { ilabels, olabels, weight }
    }

    /// A copy of this path with the same view.
    pub fn sclone(&self) -> (r: Self)
        ensures
            r@ == self@,
    {
        FstPath {
            ilabels: self.ilabels.clone(),
            olabels: self.olabels.clone(),
            weight: self.weight.sclone(),
        }
    }

    /// Extends the path with one arc: multiplies the weight in and appends
    /// the non-epsilon labels.  Fails, leaving the path unchanged, exactly
    /// where the weight product is undefined.
    pub fn add_to_path(&mut self, ilabel: Label, olabel: Label, weight: &W) -> (r: Result<
        (),
        SemiringError,
    >)
        ensures
            match r {
                Ok(_) => W::times_ok(old(self)@.weight, weight@) && final(self)@ == (PathV {
                    ilabels: old(self)@.ilabels + (if ilabel != EPS_LABEL {
                        seq![ilabel]
                    } else {
                        Seq::empty()
                    }),
                    olabels: old(self)@.olabels + (if olabel != EPS_LABEL {
                        seq![olabel]
                    } else {
                        Seq::empty()
                    }),
                    weight: W::sv_times(old(self)@.weight, weight@),
                }),
                Err(_) => !W::times_ok(old(self)@.weight, weight@) && final(self)@ == old(self)@,
            },
    {
        match self.weight.times_assign(weight) {
            Ok(_) => {
                if ilabel != EPS_LABEL {
                    self.ilabels.push(ilabel);
                }
                if olabel != EPS_LABEL {
                    self.olabels.push(olabel);
                }
                proof {
                    if ilabel != EPS_LABEL {
                        assert(self.ilabels@ =~= old(self).ilabels@ + seq![ilabel]);
                    } else {
                        assert(self.ilabels@ =~= old(self).ilabels@ + Seq::<Label>::empty());
                    }
                    if olabel != EPS_LABEL {
                        assert(self.olabels@ =~= old(self).olabels@ + seq![olabel]);
                    } else {
                        assert(self.olabels@ =~= old(self).olabels@ + Seq::<Label>::empty());
                    }
                }
                Ok(())
            },
            Err(e) => Err(e),
        }
    }

    /// Multiplies a final weight into the path.  Fails, leaving the path
    /// unchanged, exactly where the weight product is undefined.
    pub fn add_weight(&mut self, weight: &W) -> (r: Result<(), SemiringError>)
        ensures
            match r {
                Ok(_) => W::times_ok(old(self)@.weight, weight@) && final(self)@ == (PathV {
                    ilabels: old(self)@.ilabels,
                    olabels: old(self)@.olabels,
                    weight: W::sv_times(old(self)@.weight, weight@),
                }),
                Err(_) => !W::times_ok(old(self)@.weight, weight@) && final(self)@ == old(self)@,
            },
    {
        self.weight.times_assign(weight)
    }
}

impl<W: Semiring> Default for FstPath<W> {
    /// The empty path: no labels, weight `one`.
    fn default() -> (r: Self)
        ensures
            r@ == (PathV {
                ilabels: Seq::<Label>::empty(),
                olabels: Seq::<Label>::empty(),
                weight: W::sv_one(),
            }),
    {
        FstPath { ilabels: Vec::new(), olabels: Vec::new(), weight: W::one() }
    }
}

impl<W: Semiring> PartialEq for FstPath<W> {
    fn eq(&self, other: &Self) -> bool {
        let ieq = self.ilabels == other.ilabels;
        let oeq = self.olabels == other.olabels;
        let weq = self.weight.eq_weight(&other.weight);
        proof {
            if ieq {
                assert(self.ilabels@ =~= other.ilabels@);
            }
            if oeq {
                assert(self.olabels@ =~= other.olabels@);
            }
        }
        ieq && oeq && weq
    }
}

impl<W: Semiring> vstd::std_specs::cmp::PartialEqSpecImpl for FstPath<W> {
    open spec fn obeys_eq_spec() -> bool {
        true
    }

    open spec fn eq_spec(&self, other: &Self) -> bool {
        self@ == other@
    }
}

} // verus!
