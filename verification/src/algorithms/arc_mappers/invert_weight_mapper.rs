//! Mapper that reciprocates every weight.

use vstd::prelude::*;

use crate::algorithms::arc_map::{ArcMapper, FinalArc, FinalArcV, MapFinalAction};
use crate::arc::{Arc, ArcV};
use crate::errors::FstError;
use crate::semirings::semiring::{DivideType, Semiring, WeaklyDivisibleSemiring};

verus! {

/// Mapper replacing every weight by `one` divided by it.
pub struct InvertWeightMapper {}

/// Replaces a weight by its reciprocal: `one` divided by it, on any side.
/// Fails, leaving the weight unchanged, exactly where that division is
/// undefined.
pub fn map_weight<W: WeaklyDivisibleSemiring>(weight: &mut W) -> (r: Result<(), FstError>)
    ensures
        match r {
            Ok(_) => W::divide_ok(W::sv_one(), old(weight)@, DivideType::DivideAny)
                && final(weight)@ == W::sv_divide(
                W::sv_one(),
                old(weight)@,
                DivideType::DivideAny,
            ),
            Err(_) => !W::divide_ok(W::sv_one(), old(weight)@, DivideType::DivideAny)
                && final(weight)@ == old(weight)@,
        },
{
    let one = W::one();
    match one.divide(weight, DivideType::DivideAny) {
        Ok(q) => {
            weight.set_value(q.take_value());
            Ok(())
        },
        Err(e) => Err(FstError::Weight(e)),
    }
}

impl<S: WeaklyDivisibleSemiring> ArcMapper<S> for InvertWeightMapper {
    open spec fn fa_spec() -> MapFinalAction {
        MapFinalAction::MapNoSuperfinal
    }

    open spec fn arc_ok(a: ArcV<<S as View>::V>) -> bool {
        S::divide_ok(S::sv_one(), a.weight, DivideType::DivideAny)
    }

    open spec fn arc_spec(a: ArcV<<S as View>::V>) -> ArcV<<S as View>::V> {
        ArcV {
            ilabel: a.ilabel,
            olabel: a.olabel,
            weight: S::sv_divide(S::sv_one(), a.weight, DivideType::DivideAny),
            nextstate: a.nextstate,
        }
    }

    open spec fn final_ok(fa: FinalArcV<<S as View>::V>) -> bool {
        S::divide_ok(S::sv_one(), fa.weight, DivideType::DivideAny)
    }

    open spec fn final_spec(fa: FinalArcV<<S as View>::V>) -> FinalArcV<<S as View>::V> {
        FinalArcV {
            ilabel: fa.ilabel,
            olabel: fa.olabel,
            weight: S::sv_divide(S::sv_one(), fa.weight, DivideType::DivideAny),
        }
    }

    fn arc_map(&mut self, arc: &mut Arc<S>) -> Result<(), FstError> {
        map_weight(&mut arc.weight)
    }

    fn final_arc_map(&mut self, final_arc: &mut FinalArc<S>) -> Result<(), FstError> {
        map_weight(&mut final_arc.weight)
    }

    fn final_action(&self) -> MapFinalAction {
        MapFinalAction::MapNoSuperfinal
    }
}

} // verus!
