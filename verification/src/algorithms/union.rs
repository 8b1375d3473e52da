//! Union of two FSTs: a fresh FST accepting every path of either operand.

use vstd::prelude::*;

use crate::arc::{Arc, ArcV};
use crate::errors::FstError;
use crate::fst_path::PathV;
use crate::fst_impls::vector_fst::{offset_state, offset_states, FstV, StateV, VectorFst};
use crate::fst_traits::paths_iterator::{
    is_accepted_path, is_run, path_extends, run_fold, run_ok, run_step_ok,
};
use crate::semirings::semiring::Semiring;
use crate::{StateId, EPS_LABEL};

verus! {

/// The epsilon arcs added from the fresh start state: one towards each
/// operand's (shifted) start state, first operand first.
pub open spec fn union_start_arcs<WV>(
    f1: FstV<WV>,
    f2: FstV<WV>,
    one: WV,
) -> Seq<ArcV<WV>> {
    let a1: Seq<ArcV<WV>> = match f1.start {
        Some(s1) => seq![
            ArcV {
                ilabel: EPS_LABEL,
                olabel: EPS_LABEL,
                weight: one,
                nextstate: (1 + s1) as StateId,
            },
        ],
        None => Seq::empty(),
    };
    let a2: Seq<ArcV<WV>> = match f2.start {
        Some(s2) => seq![
            ArcV {
                ilabel: EPS_LABEL,
                olabel: EPS_LABEL,
                weight: one,
                nextstate: (1 + f1.states.len() + s2) as StateId,
            },
        ],
        None => Seq::empty(),
    };
    a1 + a2
}

/// The union FST as a value: a fresh start state with the epsilon arcs,
/// then a shifted copy of each operand.
#[verifier::opaque]
pub open spec fn union_spec<W: Semiring>(
    f1: FstV<<W as View>::V>,
    f2: FstV<<W as View>::V>,
) -> FstV<<W as View>::V> {
    FstV {
        states: seq![
            StateV { final_weight: None, arcs: union_start_arcs(f1, f2, W::sv_one()) },
        ] + offset_states(f1.states, 1) + offset_states(f2.states, 1 + f1.states.len() as int),
        start: Some(0),
    }
}

/// Adds an epsilon arc from the fresh start state of `fst_out` to the
/// (already copied) start state of `fst`, when `fst` has one.
fn add_epsilon_arc_to_initial_state<W: Semiring>(
    fst: &VectorFst<W>,
    mapping: &Vec<StateId>,
    fst_out: &mut VectorFst<W>,
) -> (r: Result<(), FstError>)
    requires
        fst@.wf(),
        mapping@.len() == fst@.states.len(),
        (fst@.start matches Some(os) ==> mapping@[os as int] < old(fst_out)@.states.len()),
        old(fst_out)@.start matches Some(st) ==> st < old(fst_out)@.states.len(),
        old(fst_out)@.start is Some,
    ensures
        r is Ok,
        final(fst_out)@.start == old(fst_out)@.start,
        final(fst_out)@.states.len() == old(fst_out)@.states.len(),
        ({
            let st = old(fst_out)@.start.unwrap() as int;
            match fst@.start {
                Some(os) => final(fst_out)@.states == old(fst_out)@.states.update(
                    st,
                    StateV {
                        final_weight: old(fst_out)@.states[st].final_weight,
                        arcs: old(fst_out)@.states[st].arcs.push(
                            ArcV {
                                ilabel: EPS_LABEL,
                                olabel: EPS_LABEL,
                                weight: W::sv_one(),
                                nextstate: mapping@[os as int],
                            },
                        ),
                    },
                ),
                None => final(fst_out)@ == old(fst_out)@,
            }
        }),
{
    let start_state = match fst_out.start() {
        Some(s) => s,
        None => 0,
    };
    match fst.start() {
        Some(old_start_state_fst) => {
            let dest = mapping[old_start_state_fst];
            match fst_out.add_arc(start_state, Arc::new(EPS_LABEL, EPS_LABEL, W::one(), dest)) {
                Ok(_) => Ok(()),
                Err(e) => Err(e),
            }
        },
        None => Ok(()),
    }
}

/// Copies every final weight of `fst` onto the corresponding copied state
/// of `fst_out`.  The copies already carry those weights, so the FST is
/// unchanged up to its view.
fn set_new_final_states<W: Semiring>(
    fst: &VectorFst<W>,
    mapping: &Vec<StateId>,
    fst_out: &mut VectorFst<W>,
) -> (r: Result<(), FstError>)
    requires
        mapping@.len() == fst@.states.len(),
        forall|i: int|
            0 <= i < mapping@.len() ==> #[trigger] mapping@[i] < old(fst_out)@.states.len() && old(
                fst_out,
            )@.states[mapping@[i] as int].final_weight == fst@.states[i].final_weight,
    ensures
        r is Ok,
        final(fst_out)@ == old(fst_out)@,
{
    let n = fst.num_states();
    let mut s: usize = 0;
    while s < n
        invariant
            n == fst@.states.len(),
            mapping@.len() == n,
            s <= n,
            fst_out@ == old(fst_out)@,
            forall|i: int|
                0 <= i < n ==> #[trigger] mapping@[i] < fst_out@.states.len() && fst_out@.states[
                    mapping@[i] as int
                ].final_weight == fst@.states[i].final_weight,
        decreases n - s,
    {
        let has = fst.states[s].final_weight.is_some();
        if has {
            let w = match &fst.states[s].final_weight {
                Some(w) => w.sclone(),
                None => W::one(),
            };
            let dest = mapping[s];
            let ghost prev = fst_out@;
            match fst_out.set_final(dest, w) {
                Ok(_) => {},
                Err(e) => {
                    return Err(e);
                },
            }
            proof {
                assert(prev.states[dest as int].final_weight == Some(w@));
                assert(fst_out@.states[dest as int] =~= prev.states[dest as int]);
                assert(fst_out@.states =~~= prev.states);
                assert(fst_out@ =~~= prev);
            }
        }
        s = s + 1;
    }
    Ok(())
}



/// Shape of the union value: the fresh start state and the two shifted
/// copies.
proof fn lemma_union_spec_states<W: Semiring>(
    f1: FstV<<W as View>::V>,
    f2: FstV<<W as View>::V>,
)
    ensures
        union_spec::<W>(f1, f2).states.len() == 1 + f1.states.len() + f2.states.len(),
        union_spec::<W>(f1, f2).start == Some(0 as StateId),
        union_spec::<W>(f1, f2).states[0].arcs == union_start_arcs(f1, f2, W::sv_one()),
        union_spec::<W>(f1, f2).states[0].final_weight is None,
        forall|s2: int|
            0 <= s2 < f1.states.len() ==> #[trigger] union_spec::<W>(f1, f2).states[1 + s2]
                == offset_state(f1.states[s2], 1),
        forall|s2: int|
            0 <= s2 < f2.states.len() ==> #[trigger] union_spec::<W>(f1, f2).states[1
                + f1.states.len() + s2] == offset_state(f2.states[s2], 1 + f1.states.len() as int),
{
    reveal(union_spec);
    let n1 = f1.states.len() as int;
    assert forall|s2: int|
        0 <= s2 < f1.states.len() implies #[trigger] union_spec::<W>(f1, f2).states[1 + s2]
        == offset_state(f1.states[s2], 1) by {
        assert(union_spec::<W>(f1, f2).states[1 + s2] == offset_states(f1.states, 1)[s2]);
    }
    assert forall|s2: int|
        0 <= s2 < f2.states.len() implies #[trigger] union_spec::<W>(f1, f2).states[1 + n1 + s2]
        == offset_state(f2.states[s2], 1 + n1) by {
        assert(union_spec::<W>(f1, f2).states[1 + n1 + s2] == offset_states(f2.states, 1 + n1)[
            s2]);
    }
}

/// An operand's run embedded into the union: the fresh start state first,
/// then the operand's states shifted by `off`.
pub open spec fn embed_states(states: Seq<StateId>, off: int) -> Seq<StateId> {
    seq![0 as StateId] + states.map_values(|x: StateId| (x + off) as StateId)
}

/// The arc choices of an embedded run: the start arc first.
pub open spec fn embed_arcidx(arcidx: Seq<int>, first: int) -> Seq<int> {
    seq![first] + arcidx
}

/// A run of the first operand, prefixed with the epsilon arc from the
/// fresh start, is a run of the union reading the same path value.
#[verifier::rlimit(60)]
proof fn lemma_union_embed_run_left<W: Semiring>(
    f1: FstV<<W as View>::V>,
    f2: FstV<<W as View>::V>,
    states: Seq<StateId>,
    arcidx: Seq<int>,
)
    requires
        f1.wf(),
        f2.wf(),
        1 + f1.states.len() + f2.states.len() <= usize::MAX,
        is_run::<W>(f1, states, arcidx),
        run_ok::<W>(f1, states, arcidx),
    ensures
        is_run::<W>(union_spec::<W>(f1, f2), embed_states(states, 1), embed_arcidx(arcidx, 0)),
        run_ok::<W>(union_spec::<W>(f1, f2), embed_states(states, 1), embed_arcidx(arcidx, 0)),
        run_fold::<W>(union_spec::<W>(f1, f2), embed_states(states, 1), embed_arcidx(arcidx, 0))
            == run_fold::<W>(f1, states, arcidx),
    decreases arcidx.len(),
{
    let u = union_spec::<W>(f1, f2);
    let su = embed_states(states, 1);
    let au = embed_arcidx(arcidx, 0);
    let n1 = f1.states.len() as int;
    lemma_union_spec_states::<W>(f1, f2);
    assert(f1.start == Some(states[0]));
    let eps_arc = ArcV {
        ilabel: EPS_LABEL,
        olabel: EPS_LABEL,
        weight: W::sv_one(),
        nextstate: (1 + states[0]) as StateId,
    };
    assert(u.states[0].arcs[0] == eps_arc);
    if arcidx.len() == 0 {
        W::lemma_times_one(W::sv_one());
        assert(su =~= seq![0 as StateId, (states[0] + 1) as StateId]);
        assert(au =~= seq![0int]);
        assert(run_step_ok::<W>(u, su, au, 0)) by {
            assert(su[0] == 0);
            assert(u.states[0].arcs[0].nextstate == su[1]);
        }
        assert forall|k: int| 0 <= k < au.len() implies #[trigger] run_step_ok::<W>(u, su, au, k) by {
            assert(k == 0);
        }
        assert(is_run::<W>(u, su, au));
        assert(au.drop_last() =~= Seq::<int>::empty());
        assert(run_fold::<W>(u, su, au) == path_extends::<W>(
            run_fold::<W>(u, su.drop_last(), au.drop_last()),
            u.states[su[0] as int].arcs[0],
        ));
        assert(run_fold::<W>(u, su, au) =~~= run_fold::<W>(f1, states, arcidx)) by {
            assert(Seq::<crate::Label>::empty() + Seq::<crate::Label>::empty()
                =~= Seq::<crate::Label>::empty());
        }
        assert(au.len() == 1);
        assert(su[au.len() - 1] == 0);
        assert(u.states[0].arcs[au.last()] == eps_arc);
        assert(run_ok::<W>(u, su.drop_last(), au.drop_last()));
        assert(run_fold::<W>(u, su.drop_last(), au.drop_last()).weight == W::sv_one());
        assert(W::times_ok(W::sv_one(), W::sv_one()));
        assert(run_ok::<W>(u, su, au));
    } else {
        let l = arcidx.len() as int;
        // the shortened run is a run of the operand
        assert forall|k: int|
            0 <= k < arcidx.drop_last().len() implies #[trigger] run_step_ok::<W>(
            f1,
            states.drop_last(),
            arcidx.drop_last(),
            k,
        ) by {
            assert(run_step_ok::<W>(f1, states, arcidx, k));
            assert(states.drop_last()[k] == states[k]);
            assert(arcidx.drop_last()[k] == arcidx[k]);
            assert(states.drop_last()[k + 1] == states[k + 1]);
        }
        assert(run_step_ok::<W>(f1, states, arcidx, l - 1));
        assert(states.drop_last().last() == states[l - 1]);
        assert(is_run::<W>(f1, states.drop_last(), arcidx.drop_last()));
        lemma_union_embed_run_left::<W>(f1, f2, states.drop_last(), arcidx.drop_last());
        let sup = embed_states(states.drop_last(), 1);
        let aup = embed_arcidx(arcidx.drop_last(), 0);
        assert(su.drop_last() =~= sup);
        assert(au.drop_last() =~= aup);
        // the final embedded step
        assert(su[l] == (states[l - 1] + 1) as StateId);
        assert(su[l + 1] == (states[l] + 1) as StateId);
        assert(au[l] == arcidx[l - 1]);
        let a0 = f1.states[states[l - 1] as int].arcs[arcidx[l - 1]];
        assert(run_step_ok::<W>(u, su, au, l)) by {
            assert(u.states[1 + states[l - 1] as int] == offset_state(
                f1.states[states[l - 1] as int],
                1,
            ));
            assert(u.states[su[l] as int] == offset_state(f1.states[states[l - 1] as int], 1));
            assert(u.states[su[l] as int].arcs[arcidx[l - 1]] == crate::fst_impls::vector_fst::offset_arc(
                a0,
                1,
            ));
        }
        assert forall|k: int| 0 <= k < au.len() implies #[trigger] run_step_ok::<W>(u, su, au, k) by {
            if k < l {
                assert(run_step_ok::<W>(u, sup, aup, k));
                assert(su[k] == sup[k]);
                assert(au[k] == aup[k]);
                assert(su[k + 1] == sup[k + 1]);
            }
        }
        assert(is_run::<W>(u, su, au));
        // fold and definedness transfer step by step
        let ua = u.states[su[au.len() - 1] as int].arcs[au.last()];
        assert(u.states[1 + states[l - 1] as int] == offset_state(
            f1.states[states[l - 1] as int],
            1,
        ));
        assert(ua == crate::fst_impls::vector_fst::offset_arc(a0, 1));
        assert(run_fold::<W>(u, su, au) == path_extends::<W>(
            run_fold::<W>(u, sup, aup),
            ua,
        ));
        assert(run_fold::<W>(f1, states, arcidx) == path_extends::<W>(
            run_fold::<W>(f1, states.drop_last(), arcidx.drop_last()),
            a0,
        ));
        assert(path_extends::<W>(run_fold::<W>(u, sup, aup), ua) =~~= path_extends::<W>(
            run_fold::<W>(f1, states.drop_last(), arcidx.drop_last()),
            a0,
        ));
        assert(run_ok::<W>(u, su.drop_last(), au.drop_last()));
        assert(W::times_ok(
            run_fold::<W>(f1, states.drop_last(), arcidx.drop_last()).weight,
            a0.weight,
        ));
        assert(run_fold::<W>(u, su.drop_last(), au.drop_last()).weight == run_fold::<W>(
            f1,
            states.drop_last(),
            arcidx.drop_last(),
        ).weight);
        assert(W::times_ok(run_fold::<W>(u, su.drop_last(), au.drop_last()).weight, ua.weight));
        assert(run_ok::<W>(u, su, au));
    }
}

/// Law: every path accepted by the first operand is accepted by the union.
/// The epsilon arc added at the fresh start carries no label and weight
/// `one`, so the path value is unchanged.
pub proof fn lemma_union_accepts_left<W: Semiring>(
    f1: FstV<<W as View>::V>,
    f2: FstV<<W as View>::V>,
    p: PathV<<W as View>::V>,
)
    requires
        f1.wf(),
        f2.wf(),
        1 + f1.states.len() + f2.states.len() <= usize::MAX,
        is_accepted_path::<W>(f1, p),
    ensures
        is_accepted_path::<W>(union_spec::<W>(f1, f2), p),
{
    let u = union_spec::<W>(f1, f2);
    let (states, arcidx): (Seq<StateId>, Seq<int>) = choose|states: Seq<StateId>, arcidx: Seq<
        int,
    >|
        {
            let body = #[trigger] run_fold::<W>(f1, states, arcidx);
            &&& is_run::<W>(f1, states, arcidx)
            &&& run_ok::<W>(f1, states, arcidx)
            &&& (f1.states[states.last() as int].final_weight matches Some(fw) && W::times_ok(
                body.weight,
                fw,
            ) && p == (PathV {
                ilabels: body.ilabels,
                olabels: body.olabels,
                weight: W::sv_times(body.weight, fw),
            }))
        };
    lemma_union_embed_run_left::<W>(f1, f2, states, arcidx);
    let su = embed_states(states, 1);
    let au = embed_arcidx(arcidx, 0);
    assert(su.last() == (states.last() + 1) as StateId);
    assert(u.states[su.last() as int] == offset_state(f1.states[states.last() as int], 1)) by {
        lemma_union_spec_states::<W>(f1, f2);
        assert(u.states[1 + states.last() as int] == offset_state(
            f1.states[states.last() as int],
            1,
        ));
    }
    assert(u.states[su.last() as int].final_weight == f1.states[states.last() as int].final_weight);
    assert(is_accepted_path::<W>(u, p)) by {
        let body = run_fold::<W>(u, su, au);
        assert(body == run_fold::<W>(f1, states, arcidx));
    }
}


/// A run of the second operand, prefixed with the epsilon arc from the
/// fresh start, is a run of the union reading the same path value.
#[verifier::rlimit(60)]
proof fn lemma_union_embed_run_right<W: Semiring>(
    f1: FstV<<W as View>::V>,
    f2: FstV<<W as View>::V>,
    states: Seq<StateId>,
    arcidx: Seq<int>,
)
    requires
        f1.wf(),
        f2.wf(),
        1 + f1.states.len() + f2.states.len() <= usize::MAX,
        is_run::<W>(f2, states, arcidx),
        run_ok::<W>(f2, states, arcidx),
    ensures
        is_run::<W>(
            union_spec::<W>(f1, f2),
            embed_states(states, 1 + f1.states.len() as int),
            embed_arcidx(
                arcidx,
                if f1.start is Some {
                    1int
                } else {
                    0int
                },
            ),
        ),
        run_ok::<W>(
            union_spec::<W>(f1, f2),
            embed_states(states, 1 + f1.states.len() as int),
            embed_arcidx(
                arcidx,
                if f1.start is Some {
                    1int
                } else {
                    0int
                },
            ),
        ),
        run_fold::<W>(
            union_spec::<W>(f1, f2),
            embed_states(states, 1 + f1.states.len() as int),
            embed_arcidx(
                arcidx,
                if f1.start is Some {
                    1int
                } else {
                    0int
                },
            ),
        ) == run_fold::<W>(f2, states, arcidx),
    decreases arcidx.len(),
{
    let u = union_spec::<W>(f1, f2);
    let n1 = f1.states.len() as int;
    let off = 1 + n1;
    let first: int = if f1.start is Some {
        1int
    } else {
        0int
    };
    let su = embed_states(states, off);
    let au = embed_arcidx(arcidx, first);
    lemma_union_spec_states::<W>(f1, f2);
    assert(f2.start == Some(states[0]));
    let eps_arc = ArcV {
        ilabel: EPS_LABEL,
        olabel: EPS_LABEL,
        weight: W::sv_one(),
        nextstate: (off + states[0]) as StateId,
    };
    assert(u.states[0].arcs[first] == eps_arc);
    if arcidx.len() == 0 {
        W::lemma_times_one(W::sv_one());
        assert(su =~= seq![0 as StateId, (states[0] + off) as StateId]);
        assert(au =~= seq![first]);
        assert(run_step_ok::<W>(u, su, au, 0)) by {
            assert(su[0] == 0);
            assert(u.states[0].arcs[first].nextstate == su[1]);
        }
        assert forall|k: int| 0 <= k < au.len() implies #[trigger] run_step_ok::<W>(u, su, au, k) by {
            assert(k == 0);
        }
        assert(is_run::<W>(u, su, au));
        assert(au.drop_last() =~= Seq::<int>::empty());
        assert(run_fold::<W>(u, su, au) == path_extends::<W>(
            run_fold::<W>(u, su.drop_last(), au.drop_last()),
            u.states[su[0] as int].arcs[first],
        ));
        assert(run_fold::<W>(u, su, au) =~~= run_fold::<W>(f2, states, arcidx)) by {
            assert(Seq::<crate::Label>::empty() + Seq::<crate::Label>::empty()
                =~= Seq::<crate::Label>::empty());
        }
        assert(au.len() == 1);
        assert(su[au.len() - 1] == 0);
        assert(u.states[0].arcs[au.last()] == eps_arc);
        assert(run_ok::<W>(u, su.drop_last(), au.drop_last()));
        assert(run_fold::<W>(u, su.drop_last(), au.drop_last()).weight == W::sv_one());
        assert(W::times_ok(W::sv_one(), W::sv_one()));
        assert(run_ok::<W>(u, su, au));
    } else {
        let l = arcidx.len() as int;
        assert forall|k: int|
            0 <= k < arcidx.drop_last().len() implies #[trigger] run_step_ok::<W>(
            f2,
            states.drop_last(),
            arcidx.drop_last(),
            k,
        ) by {
            assert(run_step_ok::<W>(f2, states, arcidx, k));
            assert(states.drop_last()[k] == states[k]);
            assert(arcidx.drop_last()[k] == arcidx[k]);
            assert(states.drop_last()[k + 1] == states[k + 1]);
        }
        assert(run_step_ok::<W>(f2, states, arcidx, l - 1));
        assert(states.drop_last().last() == states[l - 1]);
        assert(is_run::<W>(f2, states.drop_last(), arcidx.drop_last()));
        lemma_union_embed_run_right::<W>(f1, f2, states.drop_last(), arcidx.drop_last());
        let sup = embed_states(states.drop_last(), off);
        let aup = embed_arcidx(arcidx.drop_last(), first);
        assert(su.drop_last() =~= sup);
        assert(au.drop_last() =~= aup);
        assert(su[l] == (states[l - 1] + off) as StateId);
        assert(su[l + 1] == (states[l] + off) as StateId);
        assert(au[l] == arcidx[l - 1]);
        let a0 = f2.states[states[l - 1] as int].arcs[arcidx[l - 1]];
        assert(run_step_ok::<W>(u, su, au, l)) by {
            assert(u.states[1 + f1.states.len() + states[l - 1] as int] == offset_state(
                f2.states[states[l - 1] as int],
                off,
            ));
            assert(u.states[su[l] as int] == offset_state(f2.states[states[l - 1] as int], off));
            assert(u.states[su[l] as int].arcs[arcidx[l - 1]]
                == crate::fst_impls::vector_fst::offset_arc(a0, off));
        }
        assert forall|k: int| 0 <= k < au.len() implies #[trigger] run_step_ok::<W>(u, su, au, k) by {
            if k < l {
                assert(run_step_ok::<W>(u, sup, aup, k));
                assert(su[k] == sup[k]);
                assert(au[k] == aup[k]);
                assert(su[k + 1] == sup[k + 1]);
            }
        }
        assert(is_run::<W>(u, su, au));
        let ua = u.states[su[au.len() - 1] as int].arcs[au.last()];
        assert(u.states[1 + f1.states.len() + states[l - 1] as int] == offset_state(
            f2.states[states[l - 1] as int],
            off,
        ));
        assert(ua == crate::fst_impls::vector_fst::offset_arc(a0, off));
        assert(run_fold::<W>(u, su, au) == path_extends::<W>(run_fold::<W>(u, sup, aup), ua));
        assert(run_fold::<W>(f2, states, arcidx) == path_extends::<W>(
            run_fold::<W>(f2, states.drop_last(), arcidx.drop_last()),
            a0,
        ));
        assert(path_extends::<W>(run_fold::<W>(u, sup, aup), ua) =~~= path_extends::<W>(
            run_fold::<W>(f2, states.drop_last(), arcidx.drop_last()),
            a0,
        ));
        assert(run_ok::<W>(u, su.drop_last(), au.drop_last()));
        assert(W::times_ok(
            run_fold::<W>(f2, states.drop_last(), arcidx.drop_last()).weight,
            a0.weight,
        ));
        assert(run_fold::<W>(u, su.drop_last(), au.drop_last()).weight == run_fold::<W>(
            f2,
            states.drop_last(),
            arcidx.drop_last(),
        ).weight);
        assert(W::times_ok(run_fold::<W>(u, su.drop_last(), au.drop_last()).weight, ua.weight));
        assert(run_ok::<W>(u, su, au));
    }
}

/// Law: every path accepted by the second operand is accepted by the
/// union; the epsilon arc introduced at the fresh start carries no label
/// and weight `one`, so the path value is unchanged.
pub proof fn lemma_union_accepts_right<W: Semiring>(
    f1: FstV<<W as View>::V>,
    f2: FstV<<W as View>::V>,
    p: PathV<<W as View>::V>,
)
    requires
        f1.wf(),
        f2.wf(),
        1 + f1.states.len() + f2.states.len() <= usize::MAX,
        is_accepted_path::<W>(f2, p),
    ensures
        is_accepted_path::<W>(union_spec::<W>(f1, f2), p),
{
    let u = union_spec::<W>(f1, f2);
    let n1 = f1.states.len() as int;
    let off = 1 + n1;
    let first: int = if f1.start is Some {
        1int
    } else {
        0int
    };
    let (states, arcidx): (Seq<StateId>, Seq<int>) = choose|states: Seq<StateId>, arcidx: Seq<
        int,
    >|
        {
            let body = #[trigger] run_fold::<W>(f2, states, arcidx);
            &&& is_run::<W>(f2, states, arcidx)
            &&& run_ok::<W>(f2, states, arcidx)
            &&& (f2.states[states.last() as int].final_weight matches Some(fw) && W::times_ok(
                body.weight,
                fw,
            ) && p == (PathV {
                ilabels: body.ilabels,
                olabels: body.olabels,
                weight: W::sv_times(body.weight, fw),
            }))
        };
    lemma_union_embed_run_right::<W>(f1, f2, states, arcidx);
    let su = embed_states(states, off);
    let au = embed_arcidx(arcidx, first);
    assert(su.last() == (states.last() + off) as StateId);
    assert(u.states[su.last() as int] == offset_state(f2.states[states.last() as int], off)) by {
        lemma_union_spec_states::<W>(f1, f2);
        assert(u.states[1 + f1.states.len() + states.last() as int] == offset_state(
            f2.states[states.last() as int],
            off,
        ));
    }
    assert(u.states[su.last() as int].final_weight == f2.states[states.last() as int].final_weight);
    assert(is_accepted_path::<W>(u, p)) by {
        let body = run_fold::<W>(u, su, au);
        assert(body == run_fold::<W>(f2, states, arcidx));
    }
}


/// A union run without its leading start state, shifted back to operand
/// identifiers.
pub open spec fn project_states(su: Seq<StateId>, off: int) -> Seq<StateId> {
    su.skip(1).map_values(|x: StateId| (x - off) as StateId)
}

/// The arc choices of a union run without the leading start arc.
pub open spec fn project_arcidx(au: Seq<int>) -> Seq<int> {
    au.skip(1)
}

/// Every union run from the fresh start stays inside one operand's copy
/// and projects to a run of that operand reading the same path value.
#[verifier::rlimit(60)]
proof fn lemma_union_run_project<W: Semiring>(
    f1: FstV<<W as View>::V>,
    f2: FstV<<W as View>::V>,
    su: Seq<StateId>,
    au: Seq<int>,
)
    requires
        f1.wf(),
        f2.wf(),
        1 + f1.states.len() + f2.states.len() <= usize::MAX,
        is_run::<W>(union_spec::<W>(f1, f2), su, au),
        run_ok::<W>(union_spec::<W>(f1, f2), su, au),
        au.len() >= 1,
    ensures
        ({
            let n1 = f1.states.len() as int;
            let psl = project_states(su, 1);
            let psr = project_states(su, 1 + n1);
            let pa = project_arcidx(au);
            ||| (is_run::<W>(f1, psl, pa) && run_ok::<W>(f1, psl, pa) && run_fold::<W>(
                union_spec::<W>(f1, f2),
                su,
                au,
            ) == run_fold::<W>(f1, psl, pa) && su.last() as int == psl.last() + 1)
            ||| (is_run::<W>(f2, psr, pa) && run_ok::<W>(f2, psr, pa) && run_fold::<W>(
                union_spec::<W>(f1, f2),
                su,
                au,
            ) == run_fold::<W>(f2, psr, pa) && su.last() as int == psr.last() + 1 + n1)
        }),
    decreases au.len(),
{
    let u = union_spec::<W>(f1, f2);
    let n1 = f1.states.len() as int;
    let n2 = f2.states.len() as int;
    let psl = project_states(su, 1);
    let psr = project_states(su, 1 + n1);
    let pa = project_arcidx(au);
    lemma_union_spec_states::<W>(f1, f2);
    assert(su[0] == 0);
    if au.len() == 1 {
        W::lemma_times_one(W::sv_one());
        assert(run_step_ok::<W>(u, su, au, 0));
        let sa = u.states[0].arcs[au[0]];
        assert(sa.nextstate == su[1]);
        assert(sa.weight == W::sv_one());
        assert(sa.ilabel == EPS_LABEL && sa.olabel == EPS_LABEL);
        assert(au.drop_last() =~= Seq::<int>::empty());
        assert(run_fold::<W>(u, su, au) == path_extends::<W>(
            run_fold::<W>(u, su.drop_last(), au.drop_last()),
            sa,
        ));
        if au[0] < (match f1.start {
            Some(_) => 1int,
            None => 0int,
        }) {
            // the start arc towards the first operand
            let s1 = f1.start.unwrap();
            assert(sa.nextstate == (1 + s1) as StateId);
            assert(psl =~= seq![s1]);
            assert(pa =~= Seq::<int>::empty());
            assert(is_run::<W>(f1, psl, pa));
            assert(run_ok::<W>(f1, psl, pa));
            assert(run_fold::<W>(u, su, au) =~~= run_fold::<W>(f1, psl, pa)) by {
                assert(Seq::<crate::Label>::empty() + Seq::<crate::Label>::empty()
                    =~= Seq::<crate::Label>::empty());
            }
            assert(su.last() as int == psl.last() + 1);
        } else {
            // the start arc towards the second operand
            let s2 = f2.start.unwrap();
            assert(sa.nextstate == (1 + n1 + s2) as StateId);
            assert(psr =~= seq![s2]);
            assert(pa =~= Seq::<int>::empty());
            assert(is_run::<W>(f2, psr, pa));
            assert(run_ok::<W>(f2, psr, pa));
            assert(run_fold::<W>(u, su, au) =~~= run_fold::<W>(f2, psr, pa)) by {
                assert(Seq::<crate::Label>::empty() + Seq::<crate::Label>::empty()
                    =~= Seq::<crate::Label>::empty());
            }
            assert(su.last() as int == psr.last() + 1 + n1);
        }
    } else {
        let l = au.len() as int;
        assert forall|k: int|
            0 <= k < au.drop_last().len() implies #[trigger] run_step_ok::<W>(
            u,
            su.drop_last(),
            au.drop_last(),
            k,
        ) by {
            assert(run_step_ok::<W>(u, su, au, k));
            assert(su.drop_last()[k] == su[k]);
            assert(au.drop_last()[k] == au[k]);
            assert(su.drop_last()[k + 1] == su[k + 1]);
        }
        assert(run_step_ok::<W>(u, su, au, l - 1));
        assert(su.drop_last().last() == su[l - 1]);
        assert(su[l - 1] < u.states.len());
        assert(is_run::<W>(u, su.drop_last(), au.drop_last()));
        lemma_union_run_project::<W>(f1, f2, su.drop_last(), au.drop_last());
        let pslp = project_states(su.drop_last(), 1);
        let psrp = project_states(su.drop_last(), 1 + n1);
        let pap = project_arcidx(au.drop_last());
        assert(psl.drop_last() =~= pslp);
        assert(psr.drop_last() =~= psrp);
        assert(pa.drop_last() =~= pap);
        assert(run_step_ok::<W>(u, su, au, l - 1));
        if is_run::<W>(f1, pslp, pap) && run_ok::<W>(f1, pslp, pap) && run_fold::<W>(
            u,
            su.drop_last(),
            au.drop_last(),
        ) == run_fold::<W>(f1, pslp, pap) && su[l - 1] as int == pslp.last() + 1 {
            // the run continues inside the first operand's copy
            let src = pslp.last();
            assert(u.states[1 + src as int] == offset_state(f1.states[src as int], 1));
            assert(u.states[su[l - 1] as int] == offset_state(f1.states[src as int], 1));
            let a0 = f1.states[src as int].arcs[au[l - 1]];
            assert(u.states[su[l - 1] as int].arcs[au[l - 1]]
                == crate::fst_impls::vector_fst::offset_arc(a0, 1));
            assert(su[l] as int == a0.nextstate + 1);
            assert(a0.nextstate < f1.states.len());
            assert(psl.last() == a0.nextstate);
            assert forall|k: int| 0 <= k < pa.len() implies #[trigger] run_step_ok::<W>(
                f1,
                psl,
                pa,
                k,
            ) by {
                if k < pa.len() - 1 {
                    assert(run_step_ok::<W>(f1, pslp, pap, k));
                    assert(psl[k] == pslp[k]);
                    assert(pa[k] == pap[k]);
                    assert(psl[k + 1] == pslp[k + 1]);
                } else {
                    assert(psl[k] == src);
                    assert(pa[k] == au[l - 1]);
                    assert(psl[k + 1] == a0.nextstate);
                }
            }
            assert(psl[0] == pslp[0]);
            assert(is_run::<W>(f1, psl, pa));
            assert(run_fold::<W>(u, su, au) == path_extends::<W>(
                run_fold::<W>(u, su.drop_last(), au.drop_last()),
                u.states[su[l - 1] as int].arcs[au[l - 1]],
            ));
            assert(run_fold::<W>(f1, psl, pa) == path_extends::<W>(
                run_fold::<W>(f1, pslp, pap),
                f1.states[psl[pa.len() - 1] as int].arcs[pa.last()],
            ));
            assert(run_fold::<W>(u, su, au) =~~= run_fold::<W>(f1, psl, pa));
            assert(run_ok::<W>(f1, psl, pa));
            assert(run_ok::<W>(u, su, au));
        } else {
            // the run continues inside the second operand's copy
            assert(is_run::<W>(f2, psrp, pap) && run_ok::<W>(f2, psrp, pap) && run_fold::<W>(
                u,
                su.drop_last(),
                au.drop_last(),
            ) == run_fold::<W>(f2, psrp, pap) && su[l - 1] as int == psrp.last() + 1 + n1);
            let src = psrp.last();
            assert(u.states[1 + f1.states.len() + src as int] == offset_state(
                f2.states[src as int],
                1 + n1,
            ));
            assert(u.states[su[l - 1] as int] == offset_state(f2.states[src as int], 1 + n1));
            let a0 = f2.states[src as int].arcs[au[l - 1]];
            assert(u.states[su[l - 1] as int].arcs[au[l - 1]]
                == crate::fst_impls::vector_fst::offset_arc(a0, 1 + n1));
            assert(su[l] as int == a0.nextstate + 1 + n1);
            assert(a0.nextstate < f2.states.len());
            assert(psr.last() == a0.nextstate);
            assert forall|k: int| 0 <= k < pa.len() implies #[trigger] run_step_ok::<W>(
                f2,
                psr,
                pa,
                k,
            ) by {
                if k < pa.len() - 1 {
                    assert(run_step_ok::<W>(f2, psrp, pap, k));
                    assert(psr[k] == psrp[k]);
                    assert(pa[k] == pap[k]);
                    assert(psr[k + 1] == psrp[k + 1]);
                } else {
                    assert(psr[k] == src);
                    assert(pa[k] == au[l - 1]);
                    assert(psr[k + 1] == a0.nextstate);
                }
            }
            assert(psr[0] == psrp[0]);
            assert(is_run::<W>(f2, psr, pa));
            assert(run_fold::<W>(u, su, au) == path_extends::<W>(
                run_fold::<W>(u, su.drop_last(), au.drop_last()),
                u.states[su[l - 1] as int].arcs[au[l - 1]],
            ));
            assert(run_fold::<W>(f2, psr, pa) == path_extends::<W>(
                run_fold::<W>(f2, psrp, pap),
                f2.states[psr[pa.len() - 1] as int].arcs[pa.last()],
            ));
            assert(run_fold::<W>(u, su, au) =~~= run_fold::<W>(f2, psr, pa));
            assert(run_ok::<W>(f2, psr, pa));
            assert(run_ok::<W>(u, su, au));
        }
    }
}

/// Law: every path the union accepts is accepted by one of the operands;
/// together with the two embedding laws, the union accepts exactly the
/// paths of its operands.
pub proof fn lemma_union_paths_from_operands<W: Semiring>(
    f1: FstV<<W as View>::V>,
    f2: FstV<<W as View>::V>,
    p: PathV<<W as View>::V>,
)
    requires
        f1.wf(),
        f2.wf(),
        1 + f1.states.len() + f2.states.len() <= usize::MAX,
        is_accepted_path::<W>(union_spec::<W>(f1, f2), p),
    ensures
        is_accepted_path::<W>(f1, p) || is_accepted_path::<W>(f2, p),
{
    let u = union_spec::<W>(f1, f2);
    let n1 = f1.states.len() as int;
    let (su, au): (Seq<StateId>, Seq<int>) = choose|su: Seq<StateId>, au: Seq<int>|
        {
            let body = #[trigger] run_fold::<W>(u, su, au);
            &&& is_run::<W>(u, su, au)
            &&& run_ok::<W>(u, su, au)
            &&& (u.states[su.last() as int].final_weight matches Some(fw) && W::times_ok(
                body.weight,
                fw,
            ) && p == (PathV {
                ilabels: body.ilabels,
                olabels: body.olabels,
                weight: W::sv_times(body.weight, fw),
            }))
        };
    lemma_union_spec_states::<W>(f1, f2);
    assert(su[0] == 0);
    if au.len() == 0 {
        assert(su.last() == 0);
        assert(u.states[0].final_weight is None);
        assert(false);
    }
    lemma_union_run_project::<W>(f1, f2, su, au);
    let psl = project_states(su, 1);
    let psr = project_states(su, 1 + n1);
    let pa = project_arcidx(au);
    if is_run::<W>(f1, psl, pa) && run_ok::<W>(f1, psl, pa) && run_fold::<W>(u, su, au)
        == run_fold::<W>(f1, psl, pa) && su.last() as int == psl.last() + 1 {
        assert(u.states[su.last() as int] == offset_state(f1.states[psl.last() as int], 1)) by {
            lemma_union_spec_states::<W>(f1, f2);
            assert(u.states[1 + psl.last() as int] == offset_state(
                f1.states[psl.last() as int],
                1,
            ));
        }
        assert(is_accepted_path::<W>(f1, p)) by {
            let body = run_fold::<W>(f1, psl, pa);
            assert(body == run_fold::<W>(u, su, au));
        }
    } else {
        assert(is_run::<W>(f2, psr, pa) && run_ok::<W>(f2, psr, pa) && run_fold::<W>(u, su, au)
            == run_fold::<W>(f2, psr, pa) && su.last() as int == psr.last() + 1 + n1);
        assert(u.states[su.last() as int] == offset_state(
            f2.states[psr.last() as int],
            1 + n1,
        )) by {
            lemma_union_spec_states::<W>(f1, f2);
            assert(u.states[1 + n1 + psr.last() as int] == offset_state(
                f2.states[psr.last() as int],
                1 + n1,
            ));
        }
        assert(is_accepted_path::<W>(f2, p)) by {
            let body = run_fold::<W>(f2, psr, pa);
            assert(body == run_fold::<W>(u, su, au));
        }
    }
}

/// Builds the union of two FSTs: a fresh FST with a new start state, a
/// shifted copy of each operand, and an epsilon arc of weight `one` from
/// the new start to each operand's start.  If one operand transduces `x`
/// to `y` with some weight, so does the union.
pub fn union<W: Semiring>(fst_1: &VectorFst<W>, fst_2: &VectorFst<W>) -> (r: Result<
    VectorFst<W>,
    FstError,
>)
    requires
        fst_1@.wf(),
        fst_2@.wf(),
        1 + fst_1@.states.len() + fst_2@.states.len() <= usize::MAX,
    ensures
        r matches Ok(f) && {
            let n1 = fst_1@.states.len() as int;
            let n2 = fst_2@.states.len() as int;
            &&& f@.wf()
            &&& f@ == union_spec::<W>(fst_1@, fst_2@)
            &&& f@.states.len() == 1 + n1 + n2
            &&& f@.start == Some(0usize)
            &&& f@.states[0].final_weight is None
            &&& f@.states[0].arcs == union_start_arcs(fst_1@, fst_2@, W::sv_one())
            &&& (forall|s: int|
                0 <= s < n1 ==> #[trigger] f@.states[1 + s] == offset_state(fst_1@.states[s], 1))
            &&& (forall|s: int|
                0 <= s < n2 ==> #[trigger] f@.states[1 + n1 + s] == offset_state(
                    fst_2@.states[s],
                    1 + n1,
                ))
        },
{
    let ghost n1 = fst_1@.states.len() as int;
    let ghost n2 = fst_2@.states.len() as int;
    let mut fst_out: VectorFst<W> = VectorFst::new();

    let start_state = fst_out.add_state();
    match fst_out.set_start(start_state) {
        Ok(_) => {},
        Err(e) => {
            return Err(e);
        },
    }

    let mapping_states_fst_1 = match fst_out.add_fst(fst_1) {
        Ok(m) => m,
        Err(e) => {
            return Err(e);
        },
    };
    let mapping_states_fst_2 = match fst_out.add_fst(fst_2) {
        Ok(m) => m,
        Err(e) => {
            return Err(e);
        },
    };

    match add_epsilon_arc_to_initial_state(fst_1, &mapping_states_fst_1, &mut fst_out) {
        Ok(_) => {},
        Err(e) => {
            return Err(e);
        },
    }
    match add_epsilon_arc_to_initial_state(fst_2, &mapping_states_fst_2, &mut fst_out) {
        Ok(_) => {},
        Err(e) => {
            return Err(e);
        },
    }

    match set_new_final_states(fst_1, &mapping_states_fst_1, &mut fst_out) {
        Ok(_) => {},
        Err(e) => {
            return Err(e);
        },
    }
    match set_new_final_states(fst_2, &mapping_states_fst_2, &mut fst_out) {
        Ok(_) => {},
        Err(e) => {
            return Err(e);
        },
    }
    proof {
        assert(fst_out@.states[0].arcs =~= union_start_arcs(fst_1@, fst_2@, W::sv_one()));
        assert forall|s2: int, j: int|
            0 <= s2 < fst_out@.states.len() && 0 <= j < fst_out@.states[s2].arcs.len() implies (
        #[trigger] fst_out@.states[s2].arcs[j]).nextstate < fst_out@.states.len() by {
            if 1 <= s2 < 1 + n1 {
                assert(fst_out@.states[s2] == offset_state(fst_1@.states[s2 - 1], 1));
                assert(fst_1@.states[s2 - 1].arcs[j].nextstate < n1);
            } else if 1 + n1 <= s2 {
                assert(fst_out@.states[s2] == offset_state(fst_2@.states[s2 - 1 - n1], 1 + n1));
                assert(fst_2@.states[s2 - 1 - n1].arcs[j].nextstate < n2);
            }
        }
        assert(fst_out@.wf());
        reveal(union_spec);
        let uspec = union_spec::<W>(fst_1@, fst_2@);
        assert(fst_out@.states.len() == uspec.states.len());
        assert forall|s2: int| 0 <= s2 < uspec.states.len() implies fst_out@.states[s2]
            == uspec.states[s2] by {
            if s2 == 0 {
                assert(uspec.states[0] == (StateV {
                    final_weight: None,
                    arcs: union_start_arcs(fst_1@, fst_2@, W::sv_one()),
                }));
                assert(fst_out@.states[0] =~~= uspec.states[0]);
            } else if s2 < 1 + n1 {
                assert(uspec.states[s2] == offset_states(fst_1@.states, 1)[s2 - 1]);
                assert(uspec.states[s2] == offset_state(fst_1@.states[s2 - 1], 1));
            } else {
                assert(uspec.states[s2] == offset_states(fst_2@.states, 1 + n1)[s2 - 1 - n1]);
                assert(uspec.states[s2] == offset_state(fst_2@.states[s2 - 1 - n1], 1 + n1));
            }
        }
        assert(fst_out@.states =~= uspec.states);
        assert(fst_out@ =~= uspec);
    }
    Ok(fst_out)
}

} // verus!
