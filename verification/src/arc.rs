//! Arcs: the labeled, weighted transitions of an FST.

use vstd::prelude::*;

use crate::semirings::semiring::Semiring;
use crate::{Label, StateId};

verus! {

/// Mathematical view of an arc, over the view `WV` of its weight type.
#[verifier::ext_equal]
pub ghost struct ArcV<WV> {
    /// Input label.
    pub ilabel: Label,
    /// Output label.
    pub olabel: Label,
    /// Weight, as a view.
    pub weight: WV,
    /// Target state.
    pub nextstate: StateId,
}

/// A transition of an FST: input label, output label, weight and target
/// state.  Arcs are owned by their source state; their order within a state
/// is significant and preserved by every in-place algorithm.
#[derive(Clone, Debug)]
pub struct Arc<W: Semiring> {
    /// Input label.
    pub ilabel: Label,
    /// Output label.
    pub olabel: Label,
    /// Weight of the transition.
    pub weight: W,
    /// Target state.
    pub nextstate: StateId,
}

impl<W: Semiring> View for Arc<W> {
    type V = ArcV<<W as View>::V>;

    open spec fn view(&self) -> ArcV<<W as View>::V> {
        ArcV {
            ilabel: self.ilabel,
            olabel: self.olabel,
            weight: self.weight@,
            nextstate: self.nextstate,
        }
    }
}

impl<W: Semiring> Arc<W> {
    /// Builds an arc from its four components.
    pub fn new(ilabel: Label, olabel: Label, weight: W, nextstate: StateId) -> (r: Arc<W>)
        ensures
            r@ == (ArcV { ilabel, olabel, weight: weight@, nextstate }),
    {
        Arc { ilabel, olabel, weight, nextstate }
    }

    /// A copy of this arc with the same view.
    pub fn sclone(&self) -> (r: Arc<W>)
        ensures
            r@ == self@,
    {
        Arc {
            ilabel: self.ilabel,
            olabel: self.olabel,
            weight: self.weight.sclone(),
            nextstate: self.nextstate,
        }
    }
}

impl<W: Semiring> PartialEq for Arc<W> {
    fn eq(&self, other: &Self) -> bool {
        self.ilabel == other.ilabel && self.olabel == other.olabel && self.nextstate
            == other.nextstate && self.weight.eq_weight(&other.weight)
    }
}

impl<W: Semiring> vstd::std_specs::cmp::PartialEqSpecImpl for Arc<W> {
    open spec fn obeys_eq_spec() -> bool {
        true
    }

    open spec fn eq_spec(&self, other: &Self) -> bool {
        self@ == other@
    }
}

} // verus!
