//! Small utilities built on the path enumeration.

use vstd::prelude::*;

use crate::errors::FstError;
use crate::fst_impls::vector_fst::VectorFst;
use crate::fst_path::{FstPath, PathV};
use crate::fst_traits::paths_iterator::{
    is_accepted_path, is_accepting_run, StructPathsIterator,
};
use crate::StateId;
use crate::semirings::semiring::Semiring;
use crate::Label;

verus! {

/// Decodes a linear FST: retrieves the single path it recognizes, made of
/// the input labels, the output labels and the product of the weights
/// along it.  An FST that yields no path decodes to the empty path of
/// weight `one`; one that yields a second path is rejected as not linear.
///
/// On success the result is pinned: either it is an accepted path and
/// every accepted path equals it, or the FST accepts no path at all and
/// the empty path is returned.  `NotLinear` is reported only when the FST
/// does accept a path and the enumeration produced a second one.
pub fn decode_linear_fst<W: Semiring>(fst: &VectorFst<W>) -> (r: Result<FstPath<W>, FstError>)
    requires
        fst@.wf(),
    ensures
        r matches Ok(p) ==> ((is_accepted_path::<W>(fst@, p@) && (forall|
            q: PathV<<W as View>::V>,
        |
            #[trigger] is_accepted_path::<W>(fst@, q) ==> q == p@)) || ((forall|
            q: PathV<<W as View>::V>,
        | !(#[trigger] is_accepted_path::<W>(fst@, q))) && p@ == (PathV {
            ilabels: Seq::<Label>::empty(),
            olabels: Seq::<Label>::empty(),
            weight: W::sv_one(),
        }))),
        (r matches Err(e) && e == FstError::NotLinear) ==> exists|
            s1: Seq<StateId>,
            a1: Seq<int>,
            s2: Seq<StateId>,
            a2: Seq<int>,
        |
            #[trigger] is_accepting_run::<W>(fst@, s1, a1) && #[trigger] is_accepting_run::<W>(
                fst@,
                s2,
                a2,
            ) && (s1, a1) != (s2, a2),
{
    let mut it_path = StructPathsIterator::new(fst);
    let fuel = usize::MAX;
    let first = match it_path.next(fst, fuel) {
        Ok(p) => p,
        Err(e) => {
            return Err(e);
        },
    };
    match first {
        None => {
            proof {
                assert forall|q: PathV<<W as View>::V>|
                    !(#[trigger] is_accepted_path::<W>(fst@, q)) by {
                    if is_accepted_path::<W>(fst@, q) {
                        it_path.lemma_exhausted_complete(q);
                    }
                }
            }
            let mut empty: FstPath<W> = FstPath::new(Vec::new(), Vec::new(), W::one());
            proof {
                assert(empty@ =~~= (PathV {
                    ilabels: Seq::<Label>::empty(),
                    olabels: Seq::<Label>::empty(),
                    weight: W::sv_one(),
                }));
            }
            Ok(empty)
        },
        Some(path) => {
            let second = match it_path.next(fst, fuel) {
                Ok(p) => p,
                Err(e) => {
                    return Err(e);
                },
            };
            match second {
                Some(_) => {
                    proof {
                        // two yields: two distinct accepting runs
                        it_path.lemma_yield_bookkeeping();
                        assert(it_path.yielded_runs().len() == 2);
                        let r1 = it_path.yielded_runs()[0];
                        let r2 = it_path.yielded_runs()[1];
                        assert(is_accepting_run::<W>(fst@, r1.0, r1.1));
                        assert(is_accepting_run::<W>(fst@, r2.0, r2.1));
                        assert(r1 != r2);
                        assert((r1.0, r1.1) != (r2.0, r2.1));
                    }
                    Err(FstError::NotLinear)
                },
                None => {
                    proof {
                        assert(it_path.yielded() =~= seq![path@]);
                        assert forall|q: PathV<<W as View>::V>|
                            #[trigger] is_accepted_path::<W>(fst@, q) implies q == path@ by {
                            it_path.lemma_exhausted_complete(q);
                            assert(it_path.yielded().contains(q));
                            let k = choose|k: int|
                                0 <= k < it_path.yielded().len() && it_path.yielded()[k] == q;
                            assert(k == 0);
                        }
                    }
                    Ok(path)
                },
            }
        },
    }
}

} // verus!
