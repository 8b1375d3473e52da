//! Arc mapping: application of a per-arc transformer to every arc and
//! final weight of an FST, with the superfinal-state machinery for
//! transformers that turn final weights into labeled arcs.

use vstd::prelude::*;

use crate::arc::{Arc, ArcV};
use crate::errors::FstError;
use crate::fst_impls::vector_fst::{FstV, StateV, VectorFst};
use crate::semirings::semiring::Semiring;
use crate::{Label, StateId, EPS_LABEL};

verus! {

/// Mathematical view of a final arc, over the view `WV` of its weight
/// type.
#[verifier::ext_equal]
pub ghost struct FinalArcV<WV> {
    /// Input label.
    pub ilabel: Label,
    /// Output label.
    pub olabel: Label,
    /// Weight, as a view.
    pub weight: WV,
}

/// A synthetic arc standing for a state's final weight while it is being
/// mapped; its labels default to epsilon.
#[derive(Clone, Debug)]
pub struct FinalArc<W: Semiring> {
    /// Input label, `EPS_LABEL` unless the mapper rewrites it.
    pub ilabel: Label,
    /// Output label, `EPS_LABEL` unless the mapper rewrites it.
    pub olabel: Label,
    /// The final weight being mapped.
    pub weight: W,
}

impl<W: Semiring> View for FinalArc<W> {
    type V = FinalArcV<<W as View>::V>;

    open spec fn view(&self) -> FinalArcV<<W as View>::V> {
        FinalArcV { ilabel: self.ilabel, olabel: self.olabel, weight: self.weight@ }
    }
}

/// Determines how final weights are mapped.
#[derive(Clone, Copy, Debug, PartialEq, Eq, Structural)]
pub enum MapFinalAction {
    /// A final weight is mapped into a final weight; mapping fails when
    /// the mapper produces non-epsilon labels.
    MapNoSuperfinal,
    /// A final weight is mapped to an arc to the superfinal state when the
    /// result cannot be represented as a final weight; the superfinal
    /// state is added only when needed.
    MapAllowSuperfinal,
    /// A final weight is mapped to an arc to the superfinal state unless
    /// the result is a pure final weight of weight zero; the superfinal
    /// state is always added (unless the input FST is empty).
    MapRequireSuperfinal,
}

/// How arcs and final weights are transformed.  The transformation is
/// described, like the semiring operations, by specification functions of
/// the mapper type: `arc_spec` is the image of an arc (which must keep its
/// target), `final_spec` the image of a final arc, and `arc_ok` /
/// `final_ok` say where the transformation succeeds.  The defaults
/// describe a mapper that changes nothing; an implementation overrides
/// them together with the executable methods.
pub trait ArcMapper<W: Semiring>: Sized {
    /// The final action this mapper declares.
    spec fn fa_spec() -> MapFinalAction;

    /// Where the arc transformation succeeds.
    open spec fn arc_ok(a: ArcV<<W as View>::V>) -> bool {
        true
    }

    /// The image of an arc under this mapper.
    open spec fn arc_spec(a: ArcV<<W as View>::V>) -> ArcV<<W as View>::V> {
        a
    }

    /// Where the final-arc transformation succeeds.
    open spec fn final_ok(fa: FinalArcV<<W as View>::V>) -> bool {
        true
    }

    /// The image of a final arc under this mapper.
    open spec fn final_spec(fa: FinalArcV<<W as View>::V>) -> FinalArcV<<W as View>::V> {
        fa
    }

    /// Transforms one arc in place, keeping its target.  Fails, leaving
    /// the arc unchanged, exactly where `arc_ok` does not hold.
    fn arc_map(&mut self, arc: &mut Arc<W>) -> (r: Result<(), FstError>)
        ensures
            final(arc).nextstate == old(arc).nextstate,
            match r {
                Ok(_) => Self::arc_ok(old(arc)@) && final(arc)@ == Self::arc_spec(old(arc)@),
                Err(_) => !Self::arc_ok(old(arc)@) && final(arc)@ == old(arc)@,
            },
    ;

    /// Transforms one final arc in place.  Fails, leaving it unchanged,
    /// exactly where `final_ok` does not hold.
    fn final_arc_map(&mut self, final_arc: &mut FinalArc<W>) -> (r: Result<(), FstError>)
        ensures
            match r {
                Ok(_) => Self::final_ok(old(final_arc)@) && final(final_arc)@ == Self::final_spec(
                    old(final_arc)@,
                ),
                Err(_) => !Self::final_ok(old(final_arc)@) && final(final_arc)@ == old(
                    final_arc,
                )@,
            },
    ;

    /// The final action this mapper requires.
    fn final_action(&self) -> (r: MapFinalAction)
        ensures
            r == Self::fa_spec(),
    ;
}

/// The arcs of a state, each replaced by its image under the mapper.
pub open spec fn mapped_arcs<W: Semiring, M: ArcMapper<W>>(arcs: Seq<ArcV<<W as View>::V>>) -> Seq<
    ArcV<<W as View>::V>,
> {
    arcs.map_values(|a: ArcV<<W as View>::V>| M::arc_spec(a))
}

/// The final arc a final weight is presented as: epsilon labels around it.
pub open spec fn eps_final_v<W: Semiring>(w: <W as View>::V) -> FinalArcV<<W as View>::V> {
    FinalArcV { ilabel: EPS_LABEL, olabel: EPS_LABEL, weight: w }
}

/// Whether the mapper leaves the labels of this final weight epsilon.
pub open spec fn final_keeps_eps<W: Semiring, M: ArcMapper<W>>(w: <W as View>::V) -> bool {
    let m = M::final_spec(eps_final_v::<W>(w));
    m.ilabel == EPS_LABEL && m.olabel == EPS_LABEL
}

/// A state after mapping under `MapNoSuperfinal`: arcs mapped, the final
/// weight replaced by the mapped weight.
pub open spec fn mapped_state_no_superfinal<W: Semiring, M: ArcMapper<W>>(
    st: StateV<<W as View>::V>,
) -> StateV<<W as View>::V> {
    StateV {
        final_weight: match st.final_weight {
            Some(w) => Some(M::final_spec(eps_final_v::<W>(w)).weight),
            None => None,
        },
        arcs: mapped_arcs::<W, M>(st.arcs),
    }
}

/// Whether mapping this state's final weight requires the superfinal
/// state: it is final and the mapper rewrites a label.
pub open spec fn state_needs_superfinal<W: Semiring, M: ArcMapper<W>>(
    st: StateV<<W as View>::V>,
) -> bool {
    st.final_weight matches Some(w) && !final_keeps_eps::<W, M>(w)
}

/// A state after mapping under `MapAllowSuperfinal`: as under
/// `MapNoSuperfinal` when the mapped labels stay epsilon (even for a zero
/// weight), otherwise the final weight is cleared and the mapped triple is
/// appended as an arc towards the superfinal state.
pub open spec fn mapped_state_allow<W: Semiring, M: ArcMapper<W>>(
    st: StateV<<W as View>::V>,
    sf: StateId,
) -> StateV<<W as View>::V> {
    match st.final_weight {
        None => StateV { final_weight: None, arcs: mapped_arcs::<W, M>(st.arcs) },
        Some(w) => {
            let m = M::final_spec(eps_final_v::<W>(w));
            if m.ilabel == EPS_LABEL && m.olabel == EPS_LABEL {
                StateV { final_weight: Some(m.weight), arcs: mapped_arcs::<W, M>(st.arcs) }
            } else {
                StateV {
                    final_weight: None,
                    arcs: mapped_arcs::<W, M>(st.arcs).push(
                        ArcV {
                            ilabel: m.ilabel,
                            olabel: m.olabel,
                            weight: m.weight,
                            nextstate: sf,
                        },
                    ),
                }
            }
        },
    }
}

/// A state after mapping under `MapRequireSuperfinal`: every final weight
/// is cleared, and the mapped triple is appended as an arc towards the
/// superfinal state unless it is a pure epsilon arc of weight zero.
pub open spec fn mapped_state_require<W: Semiring, M: ArcMapper<W>>(
    st: StateV<<W as View>::V>,
    sf: StateId,
) -> StateV<<W as View>::V> {
    match st.final_weight {
        None => StateV { final_weight: None, arcs: mapped_arcs::<W, M>(st.arcs) },
        Some(w) => {
            let m = M::final_spec(eps_final_v::<W>(w));
            if m.ilabel == EPS_LABEL && m.olabel == EPS_LABEL && m.weight == W::sv_zero() {
                StateV { final_weight: None, arcs: mapped_arcs::<W, M>(st.arcs) }
            } else {
                StateV {
                    final_weight: None,
                    arcs: mapped_arcs::<W, M>(st.arcs).push(
                        ArcV {
                            ilabel: m.ilabel,
                            olabel: m.olabel,
                            weight: m.weight,
                            nextstate: sf,
                        },
                    ),
                }
            }
        },
    }
}


/// The intermediate state `arc_map` leaves behind on failure: every state
/// before the failure point `k` is fully mapped, every state after it is
/// untouched, and state `k` itself has its first `i` arcs mapped, the rest
/// and its final weight untouched.  All mutations applied before the
/// failure remain applied.
pub open spec fn arc_map_err_state<W: Semiring, M: ArcMapper<W>>(
    pre: FstV<<W as View>::V>,
    post: FstV<<W as View>::V>,
    k: int,
    i: int,
) -> bool {
    let n0 = pre.states.len() as int;
    &&& 0 <= k <= n0
    &&& (k == n0 ==> M::fa_spec() == MapFinalAction::MapRequireSuperfinal)
    &&& (forall|s: int|
        0 <= s < k ==> #[trigger] post.states[s] == (match M::fa_spec() {
            MapFinalAction::MapNoSuperfinal => mapped_state_no_superfinal::<W, M>(pre.states[s]),
            MapFinalAction::MapAllowSuperfinal => mapped_state_allow::<W, M>(
                pre.states[s],
                pre.states.len() as StateId,
            ),
            MapFinalAction::MapRequireSuperfinal => mapped_state_require::<W, M>(
                pre.states[s],
                pre.states.len() as StateId,
            ),
        }))
    &&& (forall|s: int| k < s < n0 ==> #[trigger] post.states[s] == pre.states[s])
    &&& (k < n0 ==> {
        &&& 0 <= i <= pre.states[k].arcs.len()
        &&& post.states[k].final_weight == pre.states[k].final_weight
        &&& post.states[k].arcs.len() == pre.states[k].arcs.len()
        &&& (forall|j: int|
            0 <= j < i ==> #[trigger] post.states[k].arcs[j] == M::arc_spec(pre.states[k].arcs[j]))
        &&& (forall|j: int|
            i <= j < pre.states[k].arcs.len() ==> #[trigger] post.states[k].arcs[j]
                == pre.states[k].arcs[j])
    })
}

/// The freshly created superfinal state: final with weight `one`, no
/// arcs.
pub open spec fn superfinal_state<W: Semiring>() -> StateV<<W as View>::V> {
    StateV { final_weight: Some(W::sv_one()), arcs: Seq::empty() }
}

/// Applies `mapper` to every arc and every final weight of `ifst`.
///
/// An FST without a start state is left untouched.  On success every
/// pre-existing state holds exactly the mapper's image of its old self,
/// dispatched on the final action: under `MapNoSuperfinal` the mapped
/// final labels must stay epsilon (else the call fails) and the final
/// weight becomes the mapped weight; under `MapAllowSuperfinal` a state
/// whose mapped final labels are not epsilon sends them as an arc to a
/// lazily created superfinal state (final with weight `one`) and clears
/// its final weight; under `MapRequireSuperfinal` the superfinal state is
/// always created and every final weight moves to such an arc unless it
/// maps to a pure epsilon arc of weight zero.  On failure the FST is left
/// in a well-formed intermediate state: every mutation already applied
/// remains, and the error is either the mapper's own (on an arc or final
/// arc it rejects) or `NonEpsilonSuperfinalLabels`.
pub fn arc_map<W: Semiring, M: ArcMapper<W>>(ifst: &mut VectorFst<W>, mapper: &mut M) -> (r:
    Result<(), FstError>)
    requires
        old(ifst)@.wf(),
    ensures
        final(ifst)@.wf(),
        final(ifst)@.start == old(ifst)@.start,
        old(ifst)@.start is None ==> *final(ifst) == *old(ifst) && r is Ok,
        old(ifst)@.states.len() <= final(ifst)@.states.len() <= old(ifst)@.states.len() + 1,
        ({
            let n0 = old(ifst)@.states.len() as int;
            &&& ((r is Ok && old(ifst)@.start is Some && M::fa_spec()
                == MapFinalAction::MapNoSuperfinal) ==> {
                &&& final(ifst)@.states.len() == n0
                &&& (forall|s: int|
                    0 <= s < n0 ==> #[trigger] final(ifst)@.states[s]
                        == mapped_state_no_superfinal::<W, M>(old(ifst)@.states[s]))
                &&& (forall|s: int|
                    0 <= s < n0 ==> !state_needs_superfinal::<W, M>(
                        #[trigger] old(ifst)@.states[s],
                    ))
            })
            &&& ((r is Ok && old(ifst)@.start is Some && M::fa_spec()
                == MapFinalAction::MapAllowSuperfinal) ==> {
                let need = exists|s: int|
                    0 <= s < n0 && state_needs_superfinal::<W, M>(#[trigger] old(ifst)@.states[s]);
                &&& final(ifst)@.states.len() == n0 + (if need {
                    1int
                } else {
                    0int
                })
                &&& (forall|s: int|
                    0 <= s < n0 ==> #[trigger] final(ifst)@.states[s] == mapped_state_allow::<
                        W,
                        M,
                    >(old(ifst)@.states[s], old(ifst)@.states.len() as StateId))
                &&& (need ==> final(ifst)@.states[n0] == superfinal_state::<W>())
            })
            &&& ((r is Ok && old(ifst)@.start is Some && M::fa_spec()
                == MapFinalAction::MapRequireSuperfinal) ==> {
                &&& final(ifst)@.states.len() == n0 + 1
                &&& (forall|s: int|
                    0 <= s < n0 ==> #[trigger] final(ifst)@.states[s] == mapped_state_require::<
                        W,
                        M,
                    >(old(ifst)@.states[s], old(ifst)@.states.len() as StateId))
                &&& final(ifst)@.states[n0] == superfinal_state::<W>()
            })
            &&& ((r is Err && old(ifst)@.start is Some) ==> exists|k: int, i: int|
                #[trigger] arc_map_err_state::<W, M>(old(ifst)@, final(ifst)@, k, i))
            &&& (r matches Err(e) ==> ((M::fa_spec() == MapFinalAction::MapNoSuperfinal && (forall|
                s: int,
                j: int,
            |
                0 <= s < n0 && 0 <= j < old(ifst)@.states[s].arcs.len() ==> M::arc_ok(
                    #[trigger] old(ifst)@.states[s].arcs[j],
                )) && (forall|s: int|
                0 <= s < n0 ==> ((#[trigger] old(ifst)@.states[s]).final_weight matches Some(w)
                    ==> M::final_ok(eps_final_v::<W>(w))))) ==> e
                == FstError::NonEpsilonSuperfinalLabels))
            &&& ((r is Err && old(ifst)@.start is Some) ==> ((exists|s: int, j: int|
                0 <= s < n0 && 0 <= j < old(ifst)@.states[s].arcs.len() && !M::arc_ok(
                    #[trigger] old(ifst)@.states[s].arcs[j],
                )) || (exists|s: int|
                0 <= s < n0 && ((#[trigger] old(ifst)@.states[s]).final_weight matches Some(w)
                    && !M::final_ok(eps_final_v::<W>(w)))) || (M::fa_spec()
                == MapFinalAction::MapNoSuperfinal && exists|s: int|
                0 <= s < n0 && state_needs_superfinal::<W, M>(#[trigger] old(ifst)@.states[s]))
                || (M::fa_spec() == MapFinalAction::MapRequireSuperfinal && !M::final_ok(
                eps_final_v::<W>(W::sv_one()),
            ))))
        }),
{
    let ghost n0 = ifst@.states.len() as int;
    let ghost fa0 = M::fa_spec();
    if ifst.start().is_none() {
        return Ok(());
    }
    let final_action = mapper.final_action();
    let mut superfinal: Option<StateId> = None;

    if final_action == MapFinalAction::MapRequireSuperfinal {
        let superfinal_id = ifst.add_state();
        superfinal = Some(superfinal_id);
        match ifst.set_final(superfinal_id, W::one()) {
            Ok(_) => {},
            Err(e) => {
                return Err(e);
            },
        }
        proof {
            assert(ifst@.states[n0] =~~= superfinal_state::<W>());
        }
    }
    // Snapshot the number of states before iterating, so that a superfinal
    // state created lazily below is not itself mapped.
    let nsnap = ifst.num_states();
    let mut state: usize = 0;
    while state < nsnap
        invariant
            n0 == old(ifst)@.states.len(),
            fa0 == M::fa_spec(),
            final_action == fa0,
            ifst@.wf(),
            ifst@.start == old(ifst)@.start,
            old(ifst)@.start is Some,
            old(ifst)@.wf(),
            state <= nsnap,
            nsnap == n0 + (if fa0 == MapFinalAction::MapRequireSuperfinal {
                1int
            } else {
                0int
            }),
            n0 <= ifst@.states.len() <= n0 + 1,
            nsnap <= ifst@.states.len(),
            (match superfinal {
                Some(sf) => sf == n0 && ifst@.states.len() == n0 + 1 && ifst@.states[n0]
                    == superfinal_state::<W>() && (fa0 == MapFinalAction::MapAllowSuperfinal || fa0
                    == MapFinalAction::MapRequireSuperfinal),
                None => ifst@.states.len() == n0 && fa0 != MapFinalAction::MapRequireSuperfinal,
            }),
            fa0 == MapFinalAction::MapAllowSuperfinal ==> (match superfinal {
                Some(sf) => exists|s: int|
                    0 <= s < state && state_needs_superfinal::<W, M>(
                        #[trigger] old(ifst)@.states[s],
                    ),
                None => forall|s: int|
                    0 <= s < state ==> !state_needs_superfinal::<W, M>(
                        #[trigger] old(ifst)@.states[s],
                    ),
            }),
            fa0 == MapFinalAction::MapNoSuperfinal ==> (forall|s: int|
                0 <= s < state ==> !state_needs_superfinal::<W, M>(
                    #[trigger] old(ifst)@.states[s],
                )),
            forall|s: int|
                0 <= s < state && s < n0 ==> #[trigger] ifst@.states[s] == (match fa0 {
                    MapFinalAction::MapNoSuperfinal => mapped_state_no_superfinal::<W, M>(
                        old(ifst)@.states[s],
                    ),
                    MapFinalAction::MapAllowSuperfinal => mapped_state_allow::<W, M>(
                        old(ifst)@.states[s],
                        n0 as StateId,
                    ),
                    MapFinalAction::MapRequireSuperfinal => mapped_state_require::<W, M>(
                        old(ifst)@.states[s],
                        n0 as StateId,
                    ),
                }),
            forall|s: int|
                state <= s < n0 ==> #[trigger] ifst@.states[s] == old(ifst)@.states[s],
        decreases nsnap - state,
    {
        // Map the outgoing arcs of this state in place.
        let narcs = ifst.states[state].arcs.len();
        let ghost old_arcs = ifst@.states[state as int].arcs;
        let mut i: usize = 0;
        while i < narcs
            invariant
                n0 == old(ifst)@.states.len(),
                fa0 == M::fa_spec(),
                ifst@.wf(),
                ifst@.start == old(ifst)@.start,
                old(ifst)@.start is Some,
                old(ifst)@.wf(),
                state < nsnap,
                nsnap == n0 + (if fa0 == MapFinalAction::MapRequireSuperfinal {
                    1int
                } else {
                    0int
                }),
                nsnap <= ifst@.states.len(),
                n0 <= ifst@.states.len() <= n0 + 1,
                i <= narcs,
                narcs == ifst@.states[state as int].arcs.len(),
                state < n0 ==> old_arcs == old(ifst)@.states[state as int].arcs,
                state < n0 ==> ifst@.states[state as int].final_weight == old(ifst)@.states[
                    state as int].final_weight,
                narcs == old_arcs.len(),
                forall|j: int|
                    0 <= j < i ==> #[trigger] ifst@.states[state as int].arcs[j] == M::arc_spec(
                        old_arcs[j],
                    ),
                forall|j: int|
                    i <= j < narcs ==> #[trigger] ifst@.states[state as int].arcs[j] == old_arcs[j],
                (match superfinal {
                    Some(sf) => sf == n0 && ifst@.states.len() == n0 + 1 && ifst@.states[n0]
                        == superfinal_state::<W>() && (fa0 == MapFinalAction::MapAllowSuperfinal
                        || fa0 == MapFinalAction::MapRequireSuperfinal),
                    None => ifst@.states.len() == n0 && fa0
                        != MapFinalAction::MapRequireSuperfinal,
                }),
                fa0 == MapFinalAction::MapAllowSuperfinal ==> (match superfinal {
                    Some(sf) => exists|s: int|
                        0 <= s < state && state_needs_superfinal::<W, M>(
                            #[trigger] old(ifst)@.states[s],
                        ),
                    None => forall|s: int|
                        0 <= s < state ==> !state_needs_superfinal::<W, M>(
                            #[trigger] old(ifst)@.states[s],
                        ),
                }),
                fa0 == MapFinalAction::MapNoSuperfinal ==> (forall|s: int|
                    0 <= s < state ==> !state_needs_superfinal::<W, M>(
                        #[trigger] old(ifst)@.states[s],
                    )),
                forall|s: int|
                    0 <= s < state && s < n0 ==> #[trigger] ifst@.states[s] == (match fa0 {
                        MapFinalAction::MapNoSuperfinal => mapped_state_no_superfinal::<W, M>(
                            old(ifst)@.states[s],
                        ),
                        MapFinalAction::MapAllowSuperfinal => mapped_state_allow::<W, M>(
                            old(ifst)@.states[s],
                            n0 as StateId,
                        ),
                        MapFinalAction::MapRequireSuperfinal => mapped_state_require::<W, M>(
                            old(ifst)@.states[s],
                            n0 as StateId,
                        ),
                    }),
                forall|s: int|
                    state < s < n0 ==> #[trigger] ifst@.states[s] == old(ifst)@.states[s],
                state == n0 ==> (narcs == 0 && ifst@.states[n0] == superfinal_state::<W>()),
            decreases narcs - i,
        {
            let ghost prev = ifst@;
            let mut a = ifst.states[state].arcs[i].sclone();
            let ghost a_old = a@;
            proof {
                assert(a_old == prev.states[state as int].arcs[i as int]);
                assert(a_old == old_arcs[i as int]);
            }
            let res = mapper.arc_map(&mut a);
            let ghost target = a@.nextstate;
            ifst.states[state].arcs[i] = a;
            proof {
                assert(ifst@.states =~~= prev.states.update(
                    state as int,
                    StateV {
                        final_weight: prev.states[state as int].final_weight,
                        arcs: prev.states[state as int].arcs.update(i as int, a@),
                    },
                ));
                assert(target == a_old.nextstate);
                assert forall|s2: int, j2: int|
                    0 <= s2 < ifst@.states.len() && 0 <= j2 < ifst@.states[s2].arcs.len() implies (
                #[trigger] ifst@.states[s2].arcs[j2]).nextstate < ifst@.states.len() by {
                    if s2 == state as int {
                        if j2 == i as int {
                            assert(ifst@.states[s2].arcs[j2].nextstate == target);
                            assert(prev.states[s2].arcs[i as int].nextstate == target);
                        } else {
                            assert(ifst@.states[s2].arcs[j2] == prev.states[s2].arcs[j2]);
                        }
                    } else {
                        assert(ifst@.states[s2].arcs[j2] == prev.states[s2].arcs[j2]);
                    }
                }
                assert(ifst@.wf());
            }
            match res {
                Ok(_) => {},
                Err(e) => {
                    proof {
                        assert(!M::arc_ok(a_old));
                        if state as int == n0 {
                            assert(narcs == 0);
                            assert(false);
                        }
                        assert(state < n0);
                        assert(a_old == old(ifst)@.states[state as int].arcs[i as int]);
                        assert(ifst@.states[state as int].arcs[i as int] == a_old);
                        assert(arc_map_err_state::<W, M>(old(ifst)@, ifst@, state as int, i as int));
                    }
                    return Err(e);
                },
            }
            i = i + 1;
        }

        // Map the final weight of this state, dispatching on the final
        // action.
        let has_final = ifst.states[state].final_weight.is_some();
        proof {
            if state < n0 {
                assert(ifst@.states[state as int].arcs =~= mapped_arcs::<W, M>(
                    old(ifst)@.states[state as int].arcs,
                ));
            }
        }
        if has_final {
            let ghost w0 = ifst@.states[state as int].final_weight.unwrap();
            let w = match &ifst.states[state].final_weight {
                Some(w) => w.sclone(),
                None => W::one(),
            };
            let mut final_arc = FinalArc { ilabel: EPS_LABEL, olabel: EPS_LABEL, weight: w };
            proof {
                assert(final_arc@ == eps_final_v::<W>(w0));
            }
            match mapper.final_arc_map(&mut final_arc) {
                Ok(_) => {},
                Err(e) => {
                    proof {
                        assert(!M::final_ok(eps_final_v::<W>(w0)));
                        if state < n0 {
                            assert(old(ifst)@.states[state as int].final_weight == Some(w0));
                            assert(arc_map_err_state::<W, M>(
                                old(ifst)@,
                                ifst@,
                                state as int,
                                old(ifst)@.states[state as int].arcs.len() as int,
                            ));
                        } else {
                            assert(state == n0);
                            assert(w0 == W::sv_one());
                            assert(arc_map_err_state::<W, M>(old(ifst)@, ifst@, n0, 0));
                        }
                    }
                    return Err(e);
                },
            }
            proof {
                assert(final_arc@ == M::final_spec(eps_final_v::<W>(w0)));
            }
            match final_action {
                MapFinalAction::MapNoSuperfinal => {
                    if final_arc.ilabel != EPS_LABEL || final_arc.olabel != EPS_LABEL {
                        proof {
                            assert(state < n0);
                            assert(state_needs_superfinal::<W, M>(
                                old(ifst)@.states[state as int],
                            ));
                            assert(arc_map_err_state::<W, M>(
                                old(ifst)@,
                                ifst@,
                                state as int,
                                old(ifst)@.states[state as int].arcs.len() as int,
                            ));
                        }
                        return Err(FstError::NonEpsilonSuperfinalLabels);
                    }
                    let ghost prev = ifst@;
                    match ifst.set_final(state, final_arc.weight) {
                        Ok(_) => {},
                        Err(e) => {
                            return Err(e);
                        },
                    }
                    proof {
                        assert(ifst@.states[state as int] =~~= mapped_state_no_superfinal::<W, M>(
                            old(ifst)@.states[state as int],
                        ));
                        assert forall|s: int|
                            0 <= s < state && s < n0 implies #[trigger] ifst@.states[s]
                            == mapped_state_no_superfinal::<W, M>(old(ifst)@.states[s]) by {
                            assert(ifst@.states[s] == prev.states[s]);
                        }
                        assert forall|s: int|
                            state < s < n0 implies #[trigger] ifst@.states[s] == old(
                            ifst,
                        )@.states[s] by {
                            assert(ifst@.states[s] == prev.states[s]);
                        }
                    }
                },
                MapFinalAction::MapAllowSuperfinal => {
                    let at_superfinal = match superfinal {
                        Some(sf) => sf == state,
                        None => false,
                    };
                    if !at_superfinal {
                        if final_arc.ilabel != EPS_LABEL || final_arc.olabel != EPS_LABEL {
                            let sf = match superfinal {
                                Some(sf) => sf,
                                None => {
                                    let sfid = ifst.add_state();
                                    superfinal = Some(sfid);
                                    match ifst.set_final(sfid, W::one()) {
                                        Ok(_) => {},
                                        Err(e) => {
                                            return Err(e);
                                        },
                                    }
                                    proof {
                                        assert(ifst@.states[n0] =~~= superfinal_state::<W>());
                                    }
                                    sfid
                                },
                            };
                            let ghost prev = ifst@;
                            match ifst.add_arc(
                                state,
                                Arc::new(
                                    final_arc.ilabel,
                                    final_arc.olabel,
                                    final_arc.weight,
                                    sf,
                                ),
                            ) {
                                Ok(_) => {},
                                Err(e) => {
                                    return Err(e);
                                },
                            }
                            let ghost prev2 = ifst@;
                            match ifst.delete_final_weight(state) {
                                Ok(_) => {},
                                Err(e) => {
                                    return Err(e);
                                },
                            }
                            proof {
                                assert(ifst@.states[state as int] =~~= mapped_state_allow::<W, M>(
                                    old(ifst)@.states[state as int],
                                    n0 as StateId,
                                ));
                                assert forall|s: int|
                                    0 <= s < state && s < n0 implies #[trigger] ifst@.states[s]
                                    == mapped_state_allow::<W, M>(
                                    old(ifst)@.states[s],
                                    n0 as StateId,
                                ) by {
                                    assert(ifst@.states[s] == prev.states[s]);
                                }
                                assert forall|s: int|
                                    state < s < n0 implies #[trigger] ifst@.states[s] == old(
                                    ifst,
                                )@.states[s] by {
                                    assert(ifst@.states[s] == prev.states[s]);
                                }
                                assert(ifst@.states[n0] == superfinal_state::<W>());
                            }
                        } else {
                            let ghost prev = ifst@;
                            match ifst.set_final(state, final_arc.weight) {
                                Ok(_) => {},
                                Err(e) => {
                                    return Err(e);
                                },
                            }
                            proof {
                                assert(ifst@.states[state as int] =~~= mapped_state_allow::<W, M>(
                                    old(ifst)@.states[state as int],
                                    n0 as StateId,
                                ));
                                assert forall|s: int|
                                    0 <= s < state && s < n0 implies #[trigger] ifst@.states[s]
                                    == mapped_state_allow::<W, M>(
                                    old(ifst)@.states[s],
                                    n0 as StateId,
                                ) by {
                                    assert(ifst@.states[s] == prev.states[s]);
                                }
                                assert forall|s: int|
                                    state < s < n0 implies #[trigger] ifst@.states[s] == old(
                                    ifst,
                                )@.states[s] by {
                                    assert(ifst@.states[s] == prev.states[s]);
                                }
                            }
                        }
                    }
                },
                MapFinalAction::MapRequireSuperfinal => {
                    let at_superfinal = match superfinal {
                        Some(sf) => sf == state,
                        None => false,
                    };
                    if !at_superfinal {
                        proof {
                            assert(state < n0);
                        }
                        if final_arc.ilabel != EPS_LABEL || final_arc.olabel != EPS_LABEL
                            || !final_arc.weight.is_zero() {
                            let sf = match superfinal {
                                Some(sf) => sf,
                                None => 0,
                            };
                            let ghost prev = ifst@;
                            ifst.add_arc_unchecked(
                                state,
                                Arc::new(
                                    final_arc.ilabel,
                                    final_arc.olabel,
                                    final_arc.weight,
                                    sf,
                                ),
                            );
                        }
                        let ghost prev2 = ifst@;
                        match ifst.delete_final_weight(state) {
                            Ok(_) => {},
                            Err(e) => {
                                return Err(e);
                            },
                        }
                        proof {
                            assert(ifst@.states[state as int] =~~= mapped_state_require::<W, M>(
                                old(ifst)@.states[state as int],
                                n0 as StateId,
                            ));
                            assert forall|s: int|
                                0 <= s < state && s < n0 implies #[trigger] ifst@.states[s]
                                == mapped_state_require::<W, M>(
                                old(ifst)@.states[s],
                                n0 as StateId,
                            ) by {
                                assert(ifst@.states[s] == prev2.states[s]);
                            }
                            assert forall|s: int|
                                state < s < n0 implies #[trigger] ifst@.states[s] == old(
                                ifst,
                            )@.states[s] by {
                                assert(ifst@.states[s] == prev2.states[s]);
                            }
                            assert(ifst@.states[n0] == superfinal_state::<W>());
                        }
                    }
                },
            }
        } else {
            proof {
                if state < n0 {
                    assert(ifst@.states[state as int] =~~= (match fa0 {
                        MapFinalAction::MapNoSuperfinal => mapped_state_no_superfinal::<W, M>(
                            old(ifst)@.states[state as int],
                        ),
                        MapFinalAction::MapAllowSuperfinal => mapped_state_allow::<W, M>(
                            old(ifst)@.states[state as int],
                            n0 as StateId,
                        ),
                        MapFinalAction::MapRequireSuperfinal => mapped_state_require::<W, M>(
                            old(ifst)@.states[state as int],
                            n0 as StateId,
                        ),
                    }));
                }
            }
        }
        state = state + 1;
    }
    proof {
        if fa0 == MapFinalAction::MapAllowSuperfinal && superfinal is None {
            assert(ifst@.states.len() == n0);
        }
    }
    Ok(())
}

} // verus!
