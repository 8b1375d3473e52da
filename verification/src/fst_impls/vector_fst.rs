//! Simple concrete, mutable FST whose states and arcs are stored in
//! standard vectors.

use vstd::prelude::*;

use crate::arc::{Arc, ArcV};
use crate::errors::FstError;
use crate::semirings::semiring::Semiring;
use crate::{Label, StateId, EPS_LABEL};

verus! {

use vstd::std_specs::cmp::PartialEqSpec;

/// Mathematical view of a state: its optional final weight and its ordered
/// sequence of outgoing arcs.
#[verifier::ext_equal]
pub ghost struct StateV<WV> {
    /// `None` marks a non-final state.
    pub final_weight: Option<WV>,
    /// Outgoing arcs, in insertion order.
    pub arcs: Seq<ArcV<WV>>,
}

/// Mathematical view of an FST: its ordered sequence of states and its
/// optional start state.
#[verifier::ext_equal]
pub ghost struct FstV<WV> {
    /// States, indexed by their identifier.
    pub states: Seq<StateV<WV>>,
    /// `None` marks the empty FST, which recognizes no path.
    pub start: Option<StateId>,
}

impl<WV> FstV<WV> {
    /// Global well-formedness: the start state and every arc target refer
    /// to an existing state.
    pub open spec fn wf(self) -> bool {
        &&& (self.start matches Some(s) ==> s < self.states.len())
        &&& forall|s: int, i: int|
            0 <= s < self.states.len() && 0 <= i < self.states[s].arcs.len() ==> (
            #[trigger] self.states[s].arcs[i]).nextstate < self.states.len()
    }
}

/// Number of arcs with an epsilon input label.
pub open spec fn count_input_eps<WV>(arcs: Seq<ArcV<WV>>) -> nat
    decreases arcs.len(),
{
    if arcs.len() == 0 {
        0
    } else {
        count_input_eps(arcs.drop_last()) + if arcs.last().ilabel == EPS_LABEL {
            1nat
        } else {
            0nat
        }
    }
}

/// Number of arcs with an epsilon output label.
pub open spec fn count_output_eps<WV>(arcs: Seq<ArcV<WV>>) -> nat
    decreases arcs.len(),
{
    if arcs.len() == 0 {
        0
    } else {
        count_output_eps(arcs.drop_last()) + if arcs.last().olabel == EPS_LABEL {
            1nat
        } else {
            0nat
        }
    }
}


/// New identifier of a state after deleting the set `del`: the number of
/// kept states with a smaller identifier.
pub open spec fn num_kept_below(del: Set<StateId>, s: int) -> int
    decreases s,
{
    if s <= 0 {
        0
    } else {
        num_kept_below(del, s - 1) + if del.contains((s - 1) as StateId) {
            0int
        } else {
            1int
        }
    }
}

/// An arc rewritten to refer to post-deletion state identifiers.
pub open spec fn remap_arc<WV>(a: ArcV<WV>, del: Set<StateId>) -> ArcV<WV> {
    ArcV {
        ilabel: a.ilabel,
        olabel: a.olabel,
        weight: a.weight,
        nextstate: num_kept_below(del, a.nextstate as int) as StateId,
    }
}

/// Arcs surviving a deletion, in order, rewritten to the new identifiers;
/// an arc whose target is deleted is dropped.
pub open spec fn remap_arcs<WV>(arcs: Seq<ArcV<WV>>, del: Set<StateId>) -> Seq<ArcV<WV>>
    decreases arcs.len(),
{
    if arcs.len() == 0 {
        Seq::empty()
    } else {
        let rest = remap_arcs(arcs.drop_last(), del);
        if del.contains(arcs.last().nextstate) {
            rest
        } else {
            rest.push(remap_arc(arcs.last(), del))
        }
    }
}

/// States surviving a deletion, compacted in order, with their arcs
/// filtered and rewritten.
pub open spec fn remap_states<WV>(states: Seq<StateV<WV>>, del: Set<StateId>) -> Seq<StateV<WV>>
    decreases states.len(),
{
    if states.len() == 0 {
        Seq::empty()
    } else {
        let rest = remap_states(states.drop_last(), del);
        if del.contains((states.len() - 1) as StateId) {
            rest
        } else {
            rest.push(
                StateV {
                    final_weight: states.last().final_weight,
                    arcs: remap_arcs(states.last().arcs, del),
                },
            )
        }
    }
}

/// The FST left after bulk-deleting the state set `del`.
pub open spec fn del_states_spec<WV>(f: FstV<WV>, del: Set<StateId>) -> FstV<WV> {
    FstV {
        states: remap_states(f.states, del),
        start: match f.start {
            Some(st) => if del.contains(st) {
                None
            } else {
                Some(num_kept_below(del, st as int) as StateId)
            },
            None => None,
        },
    }
}

/// `num_kept_below` is monotone and grows by at most one per step.
pub proof fn lemma_num_kept_below_bounds(del: Set<StateId>, a: int, b: int)
    requires
        0 <= a <= b,
    ensures
        num_kept_below(del, a) <= num_kept_below(del, b),
        num_kept_below(del, b) <= num_kept_below(del, a) + (b - a),
    decreases b - a,
{
    if a < b {
        lemma_num_kept_below_bounds(del, a, b - 1);
    }
}

/// A kept state is remapped strictly below the new identifier of any later
/// boundary.
pub proof fn lemma_num_kept_below_strict(del: Set<StateId>, a: int, b: int)
    requires
        0 <= a < b,
        !del.contains(a as StateId),
    ensures
        num_kept_below(del, a) < num_kept_below(del, b),
{
    lemma_num_kept_below_bounds(del, a + 1, b);
}


/// Kept states are remapped injectively.
pub proof fn lemma_num_kept_below_injective(del: Set<StateId>, t1: int, t2: int)
    requires
        0 <= t1,
        0 <= t2,
        !del.contains(t1 as StateId),
        !del.contains(t2 as StateId),
        num_kept_below(del, t1) == num_kept_below(del, t2),
    ensures
        t1 == t2,
{
    if t1 < t2 {
        lemma_num_kept_below_strict(del, t1, t2);
    }
    if t2 < t1 {
        lemma_num_kept_below_strict(del, t2, t1);
    }
}

/// Delete sets agreeing on the existing states count kept states alike.
pub proof fn lemma_num_kept_below_congruent(d1: Set<StateId>, d2: Set<StateId>, n: int, s: int)
    requires
        forall|t: int|
            0 <= t < n ==> (#[trigger] d1.contains(t as StateId) <==> d2.contains(t as StateId)),
        0 <= s <= n,
    ensures
        num_kept_below(d1, s) == num_kept_below(d2, s),
    decreases s,
{
    if s > 0 {
        lemma_num_kept_below_congruent(d1, d2, n, s - 1);
    }
}

/// Delete sets agreeing on the existing states remap arcs alike.
pub proof fn lemma_remap_arcs_congruent<WV>(
    arcs: Seq<ArcV<WV>>,
    d1: Set<StateId>,
    d2: Set<StateId>,
    n: int,
)
    requires
        forall|t: int|
            0 <= t < n ==> (#[trigger] d1.contains(t as StateId) <==> d2.contains(t as StateId)),
        forall|j: int| 0 <= j < arcs.len() ==> (#[trigger] arcs[j]).nextstate < n,
    ensures
        remap_arcs(arcs, d1) == remap_arcs(arcs, d2),
    decreases arcs.len(),
{
    if arcs.len() > 0 {
        assert(forall|j: int|
            0 <= j < arcs.len() - 1 ==> (#[trigger] arcs.drop_last()[j]).nextstate < n);
        lemma_remap_arcs_congruent(arcs.drop_last(), d1, d2, n);
        assert(arcs[arcs.len() - 1].nextstate < n);
        lemma_num_kept_below_congruent(d1, d2, n, arcs.last().nextstate as int);
        assert(d1.contains(arcs.last().nextstate) <==> d2.contains(arcs.last().nextstate)) by {
            let t = arcs.last().nextstate as int;
            assert(t as StateId == arcs.last().nextstate);
            assert(d1.contains(t as StateId) <==> d2.contains(t as StateId));
        }
        assert(remap_arc(arcs.last(), d1) =~= remap_arc(arcs.last(), d2));
        assert(remap_arcs(arcs, d1) =~= remap_arcs(arcs, d2));
    }
}

/// Delete sets agreeing on the existing states compact states alike.
pub proof fn lemma_remap_states_congruent<WV>(
    states: Seq<StateV<WV>>,
    d1: Set<StateId>,
    d2: Set<StateId>,
    n: int,
)
    requires
        forall|t: int|
            0 <= t < n ==> (#[trigger] d1.contains(t as StateId) <==> d2.contains(t as StateId)),
        states.len() <= n,
        forall|s: int, j: int|
            0 <= s < states.len() && 0 <= j < states[s].arcs.len() ==> (
            #[trigger] states[s].arcs[j]).nextstate < n,
    ensures
        remap_states(states, d1) == remap_states(states, d2),
    decreases states.len(),
{
    if states.len() > 0 {
        assert(forall|s: int, j: int|
            0 <= s < states.len() - 1 && 0 <= j < states.drop_last()[s].arcs.len() ==> (
            #[trigger] states.drop_last()[s].arcs[j]).nextstate < n);
        lemma_remap_states_congruent(states.drop_last(), d1, d2, n);
        assert(forall|j: int|
            0 <= j < states[states.len() - 1].arcs.len() ==> (#[trigger] states[states.len()
                - 1].arcs[j]).nextstate < n);
        lemma_remap_arcs_congruent(states.last().arcs, d1, d2, n);
        assert(d1.contains(((states.len() - 1) as int) as StateId) <==> d2.contains(
            ((states.len() - 1) as int) as StateId,
        ));
        assert(remap_states(states, d1) =~= remap_states(states, d2));
    }
}

/// Delete sets agreeing on the existing states delete alike.
pub proof fn lemma_del_states_spec_congruent<WV>(f: FstV<WV>, d1: Set<StateId>, d2: Set<StateId>)
    requires
        f.wf(),
        forall|t: int|
            0 <= t < f.states.len() ==> (#[trigger] d1.contains(t as StateId) <==> d2.contains(
                t as StateId,
            )),
    ensures
        del_states_spec(f, d1) == del_states_spec(f, d2),
{
    lemma_remap_states_congruent(f.states, d1, d2, f.states.len() as int);
    match f.start {
        Some(st) => {
            lemma_num_kept_below_congruent(d1, d2, f.states.len() as int, st as int);
            assert(d1.contains(st) <==> d2.contains(st)) by {
                let t = st as int;
                assert(t as StateId == st);
                assert(d1.contains(t as StateId) <==> d2.contains(t as StateId));
            }
        },
        None => {},
    }
    assert(del_states_spec(f, d1) =~= del_states_spec(f, d2));
}

/// A delete set touching no existing state keeps the count.
pub proof fn lemma_num_kept_below_empty(d: Set<StateId>, n: int, s: int)
    requires
        forall|t: int| 0 <= t < n ==> !(#[trigger] d.contains(t as StateId)),
        0 <= s <= n,
    ensures
        num_kept_below(d, s) == s,
    decreases s,
{
    if s > 0 {
        lemma_num_kept_below_empty(d, n, s - 1);
    }
}

/// A delete set touching no existing state leaves arcs unchanged.
pub proof fn lemma_remap_arcs_empty<WV>(arcs: Seq<ArcV<WV>>, d: Set<StateId>, n: int)
    requires
        forall|t: int| 0 <= t < n ==> !(#[trigger] d.contains(t as StateId)),
        forall|j: int| 0 <= j < arcs.len() ==> (#[trigger] arcs[j]).nextstate < n,
    ensures
        remap_arcs(arcs, d) == arcs,
    decreases arcs.len(),
{
    if arcs.len() > 0 {
        assert(forall|j: int|
            0 <= j < arcs.len() - 1 ==> (#[trigger] arcs.drop_last()[j]).nextstate < n);
        lemma_remap_arcs_empty(arcs.drop_last(), d, n);
        assert(arcs[arcs.len() - 1].nextstate < n);
        lemma_num_kept_below_empty(d, n, arcs.last().nextstate as int);
        assert(remap_arc(arcs.last(), d) =~= arcs.last());
        assert(remap_arcs(arcs, d) =~= arcs);
    }
}

/// A delete set touching no existing state deletes nothing.
pub proof fn lemma_del_states_spec_identity<WV>(f: FstV<WV>, d: Set<StateId>)
    requires
        f.wf(),
        forall|t: int| 0 <= t < f.states.len() ==> !(#[trigger] d.contains(t as StateId)),
    ensures
        del_states_spec(f, d) == f,
{
    assert forall|m: int| 0 <= m <= f.states.len() implies remap_states(
        f.states.take(m),
        d,
    ) =~= f.states.take(m) by {
        lemma_remap_states_take_empty(f, d, m);
    }
    assert(f.states.take(f.states.len() as int) =~= f.states);
    assert(remap_states(f.states, d) =~= f.states);
    match f.start {
        Some(st) => {
            lemma_num_kept_below_empty(d, f.states.len() as int, st as int);
            assert(!d.contains(st)) by {
                let t = st as int;
                assert(t as StateId == st);
                assert(!d.contains(t as StateId));
            }
        },
        None => {},
    }
    assert(del_states_spec(f, d) =~= f);
}

/// Helper for the identity law, by induction over a prefix.
proof fn lemma_remap_states_take_empty<WV>(f: FstV<WV>, d: Set<StateId>, m: int)
    requires
        f.wf(),
        forall|t: int| 0 <= t < f.states.len() ==> !(#[trigger] d.contains(t as StateId)),
        0 <= m <= f.states.len(),
    ensures
        remap_states(f.states.take(m), d) == f.states.take(m),
    decreases m,
{
    if m > 0 {
        lemma_remap_states_take_empty(f, d, m - 1);
        assert(f.states.take(m).drop_last() =~= f.states.take(m - 1));
        assert(f.states.take(m).last() == f.states[m - 1]);
        assert(forall|j: int|
            0 <= j < f.states[m - 1].arcs.len() ==> (#[trigger] f.states[m - 1].arcs[j]).nextstate
                < f.states.len());
        lemma_remap_arcs_empty(f.states[m - 1].arcs, d, f.states.len() as int);
        assert(remap_states(f.states.take(m), d) =~= f.states.take(m));
    }
}

/// Where a kept state lands after compaction: at its new identifier, with
/// its final weight and its remapped arcs.
pub proof fn lemma_remap_states_index<WV>(states: Seq<StateV<WV>>, del: Set<StateId>, s: int)
    requires
        0 <= s < states.len(),
        !del.contains(s as StateId),
    ensures
        remap_states(states, del).len() == num_kept_below(del, states.len() as int),
        0 <= num_kept_below(del, s) < remap_states(states, del).len(),
        remap_states(states, del)[num_kept_below(del, s)] == (StateV {
            final_weight: states[s].final_weight,
            arcs: remap_arcs(states[s].arcs, del),
        }),
    decreases states.len(),
{
    lemma_remap_states_len(states, del);
    lemma_num_kept_below_bounds(del, 0, s);
    lemma_num_kept_below_strict(del, s, states.len() as int);
    if s == states.len() - 1 {
        lemma_remap_states_len(states.drop_last(), del);
    } else {
        lemma_remap_states_index(states.drop_last(), del, s);
        assert(states.drop_last()[s] == states[s]);
        if !del.contains((states.len() - 1) as StateId) {
            lemma_num_kept_below_strict(del, s, states.len() - 1);
        } else {
            lemma_num_kept_below_bounds(del, s + 1, states.len() - 1);
        }
    }
}

/// The compacted length.
pub proof fn lemma_remap_states_len<WV>(states: Seq<StateV<WV>>, del: Set<StateId>)
    ensures
        remap_states(states, del).len() == num_kept_below(del, states.len() as int),
    decreases states.len(),
{
    if states.len() > 0 {
        lemma_remap_states_len(states.drop_last(), del);
    }
}

/// Every compacted state is the image of some kept state.
pub proof fn lemma_remap_states_surjective<WV>(states: Seq<StateV<WV>>, del: Set<StateId>, i: int)
    requires
        0 <= i < remap_states(states, del).len(),
    ensures
        exists|s: int|
            0 <= s < states.len() && !del.contains(s as StateId) && #[trigger] num_kept_below(
                del,
                s,
            ) == i,
    decreases states.len(),
{
    lemma_remap_states_len(states, del);
    if states.len() > 0 {
        lemma_remap_states_len(states.drop_last(), del);
        if !del.contains((states.len() - 1) as StateId) && i == num_kept_below(
            del,
            states.len() - 1,
        ) {
            assert(num_kept_below(del, states.len() - 1) == i);
        } else {
            lemma_remap_states_surjective(states.drop_last(), del, i);
        }
    }
}

/// An arc to a kept state survives the compaction, remapped.
pub proof fn lemma_remap_arcs_contains<WV>(arcs: Seq<ArcV<WV>>, del: Set<StateId>, j: int)
    requires
        0 <= j < arcs.len(),
        !del.contains(arcs[j].nextstate),
    ensures
        exists|k: int|
            0 <= k < remap_arcs(arcs, del).len() && #[trigger] remap_arcs(arcs, del)[k]
                == remap_arc(arcs[j], del),
    decreases arcs.len(),
{
    if j == arcs.len() - 1 {
        let rest = remap_arcs(arcs.drop_last(), del);
        assert(remap_arcs(arcs, del)[rest.len() as int] == remap_arc(arcs[j], del));
    } else {
        lemma_remap_arcs_contains(arcs.drop_last(), del, j);
        assert(arcs.drop_last()[j] == arcs[j]);
        let k = choose|k: int|
            0 <= k < remap_arcs(arcs.drop_last(), del).len() && #[trigger] remap_arcs(
                arcs.drop_last(),
                del,
            )[k] == remap_arc(arcs[j], del);
        assert(remap_arcs(arcs, del)[k] == remap_arc(arcs[j], del));
    }
}


/// Every compacted arc is the image of an arc whose target was kept.
pub proof fn lemma_remap_arcs_elements<WV>(arcs: Seq<ArcV<WV>>, del: Set<StateId>, k: int)
    requires
        0 <= k < remap_arcs(arcs, del).len(),
    ensures
        exists|j: int|
            0 <= j < arcs.len() && !del.contains((#[trigger] arcs[j]).nextstate) && remap_arcs(
                arcs,
                del,
            )[k] == remap_arc(arcs[j], del),
    decreases arcs.len(),
{
    let rest = remap_arcs(arcs.drop_last(), del);
    if !del.contains(arcs.last().nextstate) && k == rest.len() {
        assert(arcs[arcs.len() - 1] == arcs.last());
        assert(remap_arcs(arcs, del)[k] == remap_arc(arcs[arcs.len() - 1], del));
    } else {
        lemma_remap_arcs_elements(arcs.drop_last(), del, k);
        let j = choose|j: int|
            0 <= j < arcs.drop_last().len() && !del.contains(
                (#[trigger] arcs.drop_last()[j]).nextstate,
            ) && rest[k] == remap_arc(arcs.drop_last()[j], del);
        assert(arcs[j] == arcs.drop_last()[j]);
        assert(remap_arcs(arcs, del)[k] == remap_arc(arcs[j], del));
    }
}

/// Bulk deletion preserves well-formedness.
pub proof fn lemma_del_states_spec_wf<WV>(f: FstV<WV>, del: Set<StateId>)
    requires
        f.wf(),
    ensures
        del_states_spec(f, del).wf(),
{
    let g = del_states_spec(f, del);
    let n = f.states.len() as int;
    lemma_remap_states_len(f.states, del);
    match f.start {
        Some(st) => {
            if !del.contains(st) {
                lemma_num_kept_below_strict(del, st as int, n);
                lemma_num_kept_below_bounds(del, 0, st as int);
            }
        },
        None => {},
    }
    assert forall|s: int, j: int|
        0 <= s < g.states.len() && 0 <= j < g.states[s].arcs.len() implies (
    #[trigger] g.states[s].arcs[j]).nextstate < g.states.len() by {
        lemma_remap_states_surjective(f.states, del, s);
        let s0 = choose|s0: int|
            0 <= s0 < f.states.len() && !del.contains(s0 as StateId) && #[trigger] num_kept_below(
                del,
                s0,
            ) == s;
        lemma_remap_states_index(f.states, del, s0);
        assert(g.states[s].arcs == remap_arcs(f.states[s0].arcs, del));
        lemma_remap_arcs_elements(f.states[s0].arcs, del, j);
        let j0 = choose|j0: int|
            0 <= j0 < f.states[s0].arcs.len() && !del.contains(
                (#[trigger] f.states[s0].arcs[j0]).nextstate,
            ) && remap_arcs(f.states[s0].arcs, del)[j] == remap_arc(f.states[s0].arcs[j0], del);
        let t = f.states[s0].arcs[j0].nextstate;
        assert(t < n);
        lemma_num_kept_below_strict(del, t as int, n);
        lemma_num_kept_below_bounds(del, 0, t as int);
        assert(g.states[s].arcs[j].nextstate == num_kept_below(del, t as int) as StateId);
    }
}

/// An arc rewritten to refer to identifiers shifted by `off`, as happens
/// when one FST is appended to another.
pub open spec fn offset_arc<WV>(a: ArcV<WV>, off: int) -> ArcV<WV> {
    ArcV {
        ilabel: a.ilabel,
        olabel: a.olabel,
        weight: a.weight,
        nextstate: (a.nextstate + off) as StateId,
    }
}

/// A state whose arcs are rewritten to identifiers shifted by `off`.
pub open spec fn offset_state<WV>(s: StateV<WV>, off: int) -> StateV<WV> {
    StateV { final_weight: s.final_weight, arcs: s.arcs.map_values(|a: ArcV<WV>| offset_arc(a, off)) }
}

/// States whose arcs are rewritten to identifiers shifted by `off`.
pub open spec fn offset_states<WV>(ss: Seq<StateV<WV>>, off: int) -> Seq<StateV<WV>> {
    ss.map_values(|s: StateV<WV>| offset_state(s, off))
}

/// A state of a [`VectorFst`]: an optional final weight and the vector of
/// outgoing arcs.
#[derive(Clone, Debug)]
pub struct VectorFstState<W: Semiring> {
    /// `None` marks a non-final state.
    pub final_weight: Option<W>,
    /// Outgoing arcs, in insertion order.
    pub arcs: Vec<Arc<W>>,
}

impl<W: Semiring> View for VectorFstState<W> {
    type V = StateV<<W as View>::V>;

    open spec fn view(&self) -> StateV<<W as View>::V> {
        StateV {
            final_weight: match self.final_weight {
                Option::Some(ref w) => Option::Some(w@),
                Option::None => Option::None,
            },
            arcs: self.arcs@.map_values(|a: Arc<W>| a@),
        }
    }
}

impl<W: Semiring> VectorFstState<W> {
    /// A fresh non-final state with no arcs.
    pub fn new() -> (r: Self)
        ensures
            r@ == (StateV::<<W as View>::V> {
                final_weight: None,
                arcs: Seq::empty(),
            }),
    {
        let r = VectorFstState { final_weight: None, arcs: Vec::new() };
        proof {
            assert(r@.arcs =~= Seq::<ArcV<<W as View>::V>>::empty());
        }
        r
    }

    /// Number of outgoing arcs.
    pub fn num_arcs(&self) -> (r: usize)
        ensures
            r == self@.arcs.len(),
    {
        self.arcs.len()
    }

    /// Number of outgoing arcs whose input label is epsilon.
    pub fn num_input_epsilons(&self) -> (r: usize)
        ensures
            r == count_input_eps(self@.arcs),
    {
        let mut count: usize = 0;
        let mut i: usize = 0;
        while i < self.arcs.len()
            invariant
                0 <= i <= self.arcs.len(),
                count == count_input_eps(self@.arcs.take(i as int)),
                count <= i,
            decreases self.arcs.len() - i,
        {
            proof {
                assert(self@.arcs.take(i + 1).drop_last() =~= self@.arcs.take(i as int));
                assert(self@.arcs.take(i + 1).last() == self@.arcs[i as int]);
            }
            if self.arcs[i].ilabel == EPS_LABEL {
                count = count + 1;
            }
            i = i + 1;
        }
        proof {
            assert(self@.arcs.take(self.arcs@.len() as int) =~= self@.arcs);
        }
        count
    }

    /// Number of outgoing arcs whose output label is epsilon.
    pub fn num_output_epsilons(&self) -> (r: usize)
        ensures
            r == count_output_eps(self@.arcs),
    {
        let mut count: usize = 0;
        let mut i: usize = 0;
        while i < self.arcs.len()
            invariant
                0 <= i <= self.arcs.len(),
                count == count_output_eps(self@.arcs.take(i as int)),
                count <= i,
            decreases self.arcs.len() - i,
        {
            proof {
                assert(self@.arcs.take(i + 1).drop_last() =~= self@.arcs.take(i as int));
                assert(self@.arcs.take(i + 1).last() == self@.arcs[i as int]);
            }
            if self.arcs[i].olabel == EPS_LABEL {
                count = count + 1;
            }
            i = i + 1;
        }
        proof {
            assert(self@.arcs.take(self.arcs@.len() as int) =~= self@.arcs);
        }
        count
    }

    /// A copy of this state with the same view.
    pub fn sclone(&self) -> (r: Self)
        ensures
            r@ == self@,
    {
        let final_weight = match &self.final_weight {
            Some(w) => Some(w.sclone()),
            None => None,
        };
        let mut arcs: Vec<Arc<W>> = Vec::new();
        let mut i: usize = 0;
        while i < self.arcs.len()
            invariant
                0 <= i <= self.arcs.len(),
                arcs@.len() == i,
                forall|j: int| 0 <= j < i ==> arcs@[j]@ == self.arcs@[j]@,
            decreases self.arcs.len() - i,
        {
            arcs.push(self.arcs[i].sclone());
            i = i + 1;
        }
        let r = VectorFstState { final_weight, arcs };
        proof {
            assert(r@.arcs =~= self@.arcs);
        }
        r
    }
}

impl<W: Semiring> PartialEq for VectorFstState<W> {
    fn eq(&self, other: &Self) -> bool {
        let feq = match (&self.final_weight, &other.final_weight) {
            (Some(a), Some(b)) => a.eq_weight(b),
            (None, None) => true,
            _ => false,
        };
        let aeq = self.arcs == other.arcs;
        proof {
            if aeq {
                assert(self@.arcs =~= other@.arcs);
            } else if self@ == other@ {
                assert(self@.arcs == other@.arcs);
                assert(self@.arcs.len() == self.arcs@.len());
                assert(other@.arcs.len() == other.arcs@.len());
                assert(self.arcs@.len() == other.arcs@.len());
                assert forall|i: int| 0 <= i < self.arcs@.len() implies self.arcs@[i].eq_spec(
                    &other.arcs@[i],
                ) by {
                    assert(self@.arcs[i] == self.arcs@[i]@);
                    assert(other@.arcs[i] == other.arcs@[i]@);
                    assert(self@.arcs[i] == other@.arcs[i]);
                }
                assert(false);
            }
        }
        feq && aeq
    }
}

impl<W: Semiring> vstd::std_specs::cmp::PartialEqSpecImpl for VectorFstState<W> {
    open spec fn obeys_eq_spec() -> bool {
        true
    }

    open spec fn eq_spec(&self, other: &Self) -> bool {
        self@ == other@
    }
}

/// Simple concrete, mutable FST whose states and arcs are stored in
/// standard vectors.  State identifiers index the state vector; they are
/// stable under arc insertion and state creation and are invalidated only
/// by [`VectorFst::del_states`].
#[derive(Clone, Debug)]
pub struct VectorFst<W: Semiring> {
    /// All states, indexed by their identifier.
    pub states: Vec<VectorFstState<W>>,
    /// `None` marks the empty FST, which recognizes no path.
    pub start_state: Option<StateId>,
}

impl<W: Semiring> View for VectorFst<W> {
    type V = FstV<<W as View>::V>;

    open spec fn view(&self) -> FstV<<W as View>::V> {
        FstV {
            states: self.states@.map_values(|s: VectorFstState<W>| s@),
            start: self.start_state,
        }
    }
}

impl<W: Semiring> PartialEq for VectorFst<W> {
    fn eq(&self, other: &Self) -> bool {
        let seq_ = match (self.start_state, other.start_state) {
            (Some(a), Some(b)) => a == b,
            (None, None) => true,
            _ => false,
        };
        let steq = self.states == other.states;
        proof {
            if steq {
                assert(self@.states =~= other@.states);
            } else if self@ == other@ {
                assert(self@.states == other@.states);
                assert(self@.states.len() == self.states@.len());
                assert(other@.states.len() == other.states@.len());
                assert forall|i: int| 0 <= i < self.states@.len() implies self.states@[i].eq_spec(
                    &other.states@[i],
                ) by {
                    assert(self@.states[i] == self.states@[i]@);
                    assert(other@.states[i] == other.states@[i]@);
                    assert(self@.states[i] == other@.states[i]);
                }
                assert(false);
            }
        }
        seq_ && steq
    }
}

impl<W: Semiring> vstd::std_specs::cmp::PartialEqSpecImpl for VectorFst<W> {
    open spec fn obeys_eq_spec() -> bool {
        true
    }

    open spec fn eq_spec(&self, other: &Self) -> bool {
        self@ == other@
    }
}

impl<W: Semiring> VectorFst<W> {
    /// A fresh FST with no state and no start.
    pub fn new() -> (r: Self)
        ensures
            r@ == (FstV::<<W as View>::V> { states: Seq::empty(), start: None }),
    {
        let r = VectorFst { states: Vec::new(), start_state: None };
        proof {
            assert(r@.states =~= Seq::<StateV<<W as View>::V>>::empty());
        }
        r
    }

    /// Number of states.
    pub fn num_states(&self) -> (r: usize)
        ensures
            r == self@.states.len(),
    {
        self.states.len()
    }

    /// The start state, or `None` for the empty FST.
    pub fn start(&self) -> (r: Option<StateId>)
        ensures
            r == self@.start,
    {
        self.start_state
    }

    /// Appends a fresh non-final state with no arcs and returns its
    /// identifier.
    pub fn add_state(&mut self) -> (r: StateId)
        ensures
            r == old(self)@.states.len(),
            final(self)@ == (FstV {
                states: old(self)@.states.push(
                    StateV { final_weight: None, arcs: Seq::empty() },
                ),
                start: old(self)@.start,
            }),
    {
        let id = self.states.len();
        self.states.push(VectorFstState::new());
        proof {
            assert(self@.states =~= old(self)@.states.push(
                StateV { final_weight: None, arcs: Seq::empty() },
            ));
        }
        id
    }

    /// Sets the start state.  Fails, leaving the FST unchanged, exactly
    /// when the state does not exist.
    pub fn set_start(&mut self, state_id: StateId) -> (r: Result<(), FstError>)
        ensures
            match r {
                Ok(_) => state_id < old(self)@.states.len() && final(self)@ == (FstV {
                    states: old(self)@.states,
                    start: Some(state_id),
                }),
                Err(e) => state_id >= old(self)@.states.len() && final(self)@ == old(self)@ && e
                    == FstError::InvalidStateId(state_id),
            },
    {
        if state_id >= self.states.len() {
            return Err(FstError::InvalidStateId(state_id));
        }
        self.start_state = Some(state_id);
        Ok(())
    }

    /// Sets the final weight of a state.  Fails, leaving the FST unchanged,
    /// exactly when the state does not exist.
    pub fn set_final(&mut self, state_id: StateId, final_weight: W) -> (r: Result<(), FstError>)
        ensures
            match r {
                Ok(_) => state_id < old(self)@.states.len() && final(self)@ == (FstV {
                    states: old(self)@.states.update(
                        state_id as int,
                        StateV {
                            final_weight: Some(final_weight@),
                            arcs: old(self)@.states[state_id as int].arcs,
                        },
                    ),
                    start: old(self)@.start,
                }),
                Err(e) => state_id >= old(self)@.states.len() && final(self)@ == old(self)@ && e
                    == FstError::InvalidStateId(state_id),
            },
    {
        if state_id >= self.states.len() {
            return Err(FstError::InvalidStateId(state_id));
        }
        self.states[state_id].final_weight = Some(final_weight);
        proof {
            assert(self@.states =~= old(self)@.states.update(
                state_id as int,
                StateV {
                    final_weight: Some(final_weight@),
                    arcs: old(self)@.states[state_id as int].arcs,
                },
            ));
        }
        Ok(())
    }

    /// Clears the final weight of a state, making it non-final.  Fails,
    /// leaving the FST unchanged, exactly when the state does not exist.
    pub fn delete_final_weight(&mut self, state_id: StateId) -> (r: Result<(), FstError>)
        ensures
            match r {
                Ok(_) => state_id < old(self)@.states.len() && final(self)@ == (FstV {
                    states: old(self)@.states.update(
                        state_id as int,
                        StateV {
                            final_weight: None,
                            arcs: old(self)@.states[state_id as int].arcs,
                        },
                    ),
                    start: old(self)@.start,
                }),
                Err(e) => state_id >= old(self)@.states.len() && final(self)@ == old(self)@ && e
                    == FstError::InvalidStateId(state_id),
            },
    {
        if state_id >= self.states.len() {
            return Err(FstError::InvalidStateId(state_id));
        }
        self.states[state_id].final_weight = None;
        proof {
            assert(self@.states =~= old(self)@.states.update(
                state_id as int,
                StateV {
                    final_weight: None,
                    arcs: old(self)@.states[state_id as int].arcs,
                },
            ));
        }
        Ok(())
    }

    /// The final weight of a state, or `None` when the state does not exist
    /// or is not final.
    pub fn final_weight(&self, state_id: StateId) -> (r: Option<&W>)
        ensures
            match r {
                Some(w) => state_id < self@.states.len() && self@.states[state_id as int]
                    .final_weight == Some(w@),
                None => state_id >= self@.states.len() || self@.states[state_id as int]
                    .final_weight is None,
            },
    {
        if state_id >= self.states.len() {
            return None;
        }
        match &self.states[state_id].final_weight {
            Some(w) => Some(w),
            None => None,
        }
    }

    /// Whether a state carries a final weight.
    pub fn is_final(&self, state_id: StateId) -> (r: bool)
        requires
            state_id < self@.states.len(),
        ensures
            r == (self@.states[state_id as int].final_weight is Some),
    {
        self.states[state_id].final_weight.is_some()
    }

    /// Appends an arc to a state.  Fails, leaving the FST unchanged,
    /// exactly when the source or the target state does not exist.
    pub fn add_arc(&mut self, source: StateId, arc: Arc<W>) -> (r: Result<(), FstError>)
        ensures
            match r {
                Ok(_) => source < old(self)@.states.len() && arc@.nextstate < old(
                    self,
                )@.states.len() && final(self)@ == (FstV {
                    states: old(self)@.states.update(
                        source as int,
                        StateV {
                            final_weight: old(self)@.states[source as int].final_weight,
                            arcs: old(self)@.states[source as int].arcs.push(arc@),
                        },
                    ),
                    start: old(self)@.start,
                }),
                Err(e) => (source >= old(self)@.states.len() || arc@.nextstate >= old(
                    self,
                )@.states.len()) && final(self)@ == old(self)@ && e matches FstError::InvalidStateId(_),
            },
    {
        if source >= self.states.len() {
            return Err(FstError::InvalidStateId(source));
        }
        if arc.nextstate >= self.states.len() {
            return Err(FstError::InvalidStateId(arc.nextstate));
        }
        let ghost prev = self@;
        self.states[source].arcs.push(arc);
        proof {
            assert(self@.states =~~= prev.states.update(
                source as int,
                StateV {
                    final_weight: prev.states[source as int].final_weight,
                    arcs: prev.states[source as int].arcs.push(arc@),
                },
            ));
        }
        Ok(())
    }

    /// Appends an arc to a state whose validity the caller warrants.
    pub fn add_arc_unchecked(&mut self, source: StateId, arc: Arc<W>)
        requires
            source < old(self)@.states.len(),
            arc@.nextstate < old(self)@.states.len(),
        ensures
            final(self)@ == (FstV {
                states: old(self)@.states.update(
                    source as int,
                    StateV {
                        final_weight: old(self)@.states[source as int].final_weight,
                        arcs: old(self)@.states[source as int].arcs.push(arc@),
                    },
                ),
                start: old(self)@.start,
            }),
    {
        let ghost prev = self@;
        self.states[source].arcs.push(arc);
        proof {
            assert(self@.states =~~= prev.states.update(
                source as int,
                StateV {
                    final_weight: prev.states[source as int].final_weight,
                    arcs: prev.states[source as int].arcs.push(arc@),
                },
            ));
        }
    }

    /// Bulk-deletes a set of states.  The remaining states are compacted in
    /// order; arcs are rewritten to the new identifiers and arcs whose
    /// target was deleted are dropped; a deleted start state becomes
    /// `None`.  Fails, leaving the FST unchanged, exactly when one of the
    /// given identifiers does not refer to an existing state.
    pub fn del_states(&mut self, dstates: Vec<StateId>) -> (r: Result<(), FstError>)
        requires
            old(self)@.wf(),
        ensures
            match r {
                Ok(_) => (forall|i: int|
                    0 <= i < dstates@.len() ==> #[trigger] dstates@[i] < old(self)@.states.len())
                    && final(self)@ == del_states_spec(old(self)@, dstates@.to_set())
                    && final(self)@.wf(),
                Err(e) => (exists|i: int|
                    0 <= i < dstates@.len() && #[trigger] dstates@[i] >= old(
                        self,
                    )@.states.len()) && final(self)@ == old(self)@ && e matches FstError::InvalidStateId(_),
            },
    {
        let n = self.states.len();
        let ghost of = self@;
        let mut i: usize = 0;
        while i < dstates.len()
            invariant
                forall|j: int| 0 <= j < i ==> #[trigger] dstates@[j] < n,
                n == self@.states.len(),
                self@ == of,
            decreases dstates@.len() - i,
        {
            if dstates[i] >= n {
                return Err(FstError::InvalidStateId(dstates[i]));
            }
            i = i + 1;
        }
        let ghost del = dstates@.to_set();

        // Mark the deleted states.
        let mut del_flags: Vec<bool> = Vec::new();
        let mut s: usize = 0;
        while s < n
            invariant
                del_flags@.len() == s,
                s <= n,
                forall|t: int| 0 <= t < s ==> !(#[trigger] del_flags@[t]),
            decreases n - s,
        {
            del_flags.push(false);
            s = s + 1;
        }
        let mut i: usize = 0;
        while i < dstates.len()
            invariant
                i <= dstates@.len(),
                del_flags@.len() == n,
                forall|j: int| 0 <= j < dstates@.len() ==> #[trigger] dstates@[j] < n,
                forall|t: int|
                    0 <= t < n ==> (#[trigger] del_flags@[t] <==> dstates@.take(i as int).contains(
                        t as StateId,
                    )),
            decreases dstates@.len() - i,
        {
            let d = dstates[i];
            del_flags[d] = true;
            proof {
                assert(dstates@.take(i + 1) =~= dstates@.take(i as int).push(dstates@[i as int]));
                assert forall|t: int| 0 <= t < n implies (#[trigger] del_flags@[t]
                    <==> dstates@.take(i + 1).contains(t as StateId)) by {
                    let pre = dstates@.take(i as int);
                    let post = dstates@.take(i + 1);
                    if del_flags@[t] {
                        if t == d {
                            assert(post[post.len() - 1] == t as StateId);
                            assert(post.contains(t as StateId));
                        } else {
                            let k = choose|k: int| 0 <= k < pre.len() && pre[k] == t as StateId;
                            assert(post[k] == t as StateId);
                            assert(post.contains(t as StateId));
                        }
                    } else {
                        if post.contains(t as StateId) {
                            let k = choose|k: int|
                                0 <= k < post.len() && post[k] == t as StateId;
                            if k < pre.len() {
                                assert(pre[k] == t as StateId);
                                assert(false);
                            } else {
                                assert(t == d);
                                assert(false);
                            }
                        }
                    }
                }
            }
            i = i + 1;
        }
        proof {
            assert(dstates@.take(dstates@.len() as int) =~= dstates@);
            assert forall|t: int| 0 <= t < n implies (#[trigger] del_flags@[t] <==> del.contains(
                t as StateId,
            )) by {
                assert(del.contains(t as StateId) <==> dstates@.contains(t as StateId));
                assert(del_flags@[t] <==> dstates@.take(dstates@.len() as int).contains(
                    t as StateId,
                ));
            }
        }

        // New identifier of every kept state.
        let mut newids: Vec<usize> = Vec::new();
        let mut cnt: usize = 0;
        let mut s: usize = 0;
        while s < n
            invariant
                del_flags@.len() == n,
                forall|t: int|
                    0 <= t < n ==> (#[trigger] del_flags@[t] <==> del.contains(t as StateId)),
                newids@.len() == s,
                s <= n,
                cnt == num_kept_below(del, s as int),
                cnt <= s,
                forall|t: int| 0 <= t < s ==> #[trigger] newids@[t] == num_kept_below(del, t),
            decreases n - s,
        {
            newids.push(cnt);
            if !del_flags[s] {
                cnt = cnt + 1;
            }
            s = s + 1;
        }

        // Build the surviving states.
        let ghost total = num_kept_below(del, n as int);
        let mut new_states: Vec<VectorFstState<W>> = Vec::new();
        let mut s: usize = 0;
        while s < n
            invariant
                self@ == of,
                of.wf(),
                n == of.states.len(),
                del_flags@.len() == n,
                newids@.len() == n,
                forall|t: int|
                    0 <= t < n ==> (#[trigger] del_flags@[t] <==> del.contains(t as StateId)),
                forall|t: int| 0 <= t < n ==> #[trigger] newids@[t] == num_kept_below(del, t),
                s <= n,
                total == num_kept_below(del, n as int),
                new_states@.len() == num_kept_below(del, s as int),
                new_states@.map_values(|st: VectorFstState<W>| st@) == remap_states(
                    of.states.take(s as int),
                    del,
                ),
                forall|k: int, j: int|
                    0 <= k < new_states@.len() && 0 <= j < new_states@[k].arcs@.len() ==> (
                    #[trigger] new_states@[k].arcs@[j]).nextstate < total,
            decreases n - s,
        {
            proof {
                lemma_num_kept_below_bounds(del, s as int, n as int);
                assert(of.states.take(s + 1).drop_last() =~= of.states.take(s as int));
                assert(of.states.take(s + 1).last() == of.states[s as int]);
            }
            if !del_flags[s] {
                let st = &self.states[s];
                let ghost starcs = of.states[s as int].arcs;
                let mut arcs: Vec<Arc<W>> = Vec::new();
                let mut k: usize = 0;
                while k < st.arcs.len()
                    invariant
                        st == &self.states[s as int],
                        self@ == of,
                        of.wf(),
                        n == of.states.len(),
                        s < n,
                        del_flags@.len() == n,
                        newids@.len() == n,
                        forall|t: int|
                            0 <= t < n ==> (#[trigger] del_flags@[t] <==> del.contains(
                                t as StateId,
                            )),
                        forall|t: int|
                            0 <= t < n ==> #[trigger] newids@[t] == num_kept_below(del, t),
                        k <= st.arcs@.len(),
                        total == num_kept_below(del, n as int),
                        starcs == of.states[s as int].arcs,
                        starcs.len() == st.arcs@.len(),
                        arcs@.map_values(|a: Arc<W>| a@) == remap_arcs(
                            starcs.take(k as int),
                            del,
                        ),
                        forall|j: int|
                            0 <= j < arcs@.len() ==> (#[trigger] arcs@[j]).nextstate < total,
                    decreases st.arcs@.len() - k,
                {
                    proof {
                        assert(starcs.take(k + 1).drop_last() =~= starcs.take(k as int));
                        assert(starcs.take(k + 1).last() == starcs[k as int]);
                        assert(starcs[k as int] == st.arcs@[k as int]@);
                    }
                    let a = &st.arcs[k];
                    assert(a@.nextstate < n);
                    if !del_flags[a.nextstate] {
                        proof {
                            lemma_num_kept_below_strict(del, a@.nextstate as int, n as int);
                            lemma_num_kept_below_bounds(del, 0, a@.nextstate as int);
                        }
                        let newdest = newids[a.nextstate];
                        proof {
                            assert(newdest == num_kept_below(del, a@.nextstate as int));
                            assert(newdest < total);
                        }
                        arcs.push(
                            Arc {
                                ilabel: a.ilabel,
                                olabel: a.olabel,
                                weight: a.weight.sclone(),
                                nextstate: newdest,
                            },
                        );
                        proof {
                            assert(arcs@.map_values(|x: Arc<W>| x@) =~= remap_arcs(
                                starcs.take(k + 1),
                                del,
                            ));
                        }
                    } else {
                        proof {
                            assert(arcs@.map_values(|x: Arc<W>| x@) =~= remap_arcs(
                                starcs.take(k + 1),
                                del,
                            ));
                        }
                    }
                    k = k + 1;
                }
                proof {
                    assert(starcs.take(starcs.len() as int) =~= starcs);
                }
                let final_weight = match &st.final_weight {
                    Some(w) => Some(w.sclone()),
                    None => None,
                };
                new_states.push(VectorFstState { final_weight, arcs });
                proof {
                    assert(new_states@.map_values(|st2: VectorFstState<W>| st2@) =~= remap_states(
                        of.states.take(s + 1),
                        del,
                    ));
                }
            } else {
                proof {
                    assert(new_states@.map_values(|st2: VectorFstState<W>| st2@) =~= remap_states(
                        of.states.take(s + 1),
                        del,
                    ));
                }
            }
            s = s + 1;
        }
        proof {
            assert(of.states.take(n as int) =~= of.states);
        }

        // Rewrite the start state.
        let new_start = match self.start_state {
            Some(st) => if !del_flags[st] {
                Some(newids[st])
            } else {
                None
            },
            None => None,
        };
        self.states = new_states;
        self.start_state = new_start;
        proof {
            let fv = del_states_spec(of, del);
            assert(self@.states == remap_states(of.states, del));
            assert(self@ =~= fv);
            // Well-formedness of the result.
            if fv.start is Some {
                let st = of.start->0;
                lemma_num_kept_below_strict(del, st as int, n as int);
                lemma_num_kept_below_bounds(del, 0, st as int);
            }
            assert(self@.states.len() == total);
            assert forall|s2: int, j: int|
                0 <= s2 < self@.states.len() && 0 <= j < self@.states[s2].arcs.len() implies (
            #[trigger] self@.states[s2].arcs[j]).nextstate < self@.states.len() by {
                assert(self@.states[s2] == self.states@[s2]@);
                assert(self@.states[s2].arcs[j] == self.states@[s2].arcs@[j]@);
            }
        }
        Ok(())
    }

    /// Appends a deep copy of every state of `other` (with arcs rewritten
    /// to the new identifiers, and without touching the start state) and
    /// returns the mapping from old to new identifiers.
    pub fn add_fst(&mut self, other: &VectorFst<W>) -> (r: Result<Vec<StateId>, FstError>)
        requires
            other@.wf(),
            old(self)@.states.len() + other@.states.len() <= usize::MAX,
        ensures
            r matches Ok(mapping) && {
                &&& mapping@.len() == other@.states.len()
                &&& (forall|i: int|
                    0 <= i < mapping@.len() ==> #[trigger] mapping@[i] == old(self)@.states.len()
                        + i)
                &&& final(self)@ == (FstV {
                    states: old(self)@.states + offset_states(
                        other@.states,
                        old(self)@.states.len() as int,
                    ),
                    start: old(self)@.start,
                })
            },
    {
        let offset = self.states.len();
        let ghost of = self@;
        let ghost ov = other@;
        let n = other.states.len();
        let mut mapping: Vec<StateId> = Vec::new();
        let mut s: usize = 0;
        while s < n
            invariant
                of.states.len() == offset,
                offset + n <= usize::MAX,
                ov.wf(),
                other@ == ov,
                n == ov.states.len(),
                s <= n,
                mapping@.len() == s,
                forall|i: int| 0 <= i < s ==> #[trigger] mapping@[i] == offset + i,
                self@.start == of.start,
                self@.states.len() == offset + s,
                forall|i: int| 0 <= i < offset ==> #[trigger] self@.states[i] == of.states[i],
                forall|i: int|
                    offset <= i < offset + s ==> #[trigger] self@.states[i] == offset_state(
                        ov.states[i - offset],
                        offset as int,
                    ),
            decreases n - s,
        {
            let st = &other.states[s];
            let ghost starcs = ov.states[s as int].arcs;
            let mut arcs: Vec<Arc<W>> = Vec::new();
            let mut k: usize = 0;
            while k < st.arcs.len()
                invariant
                    st == &other.states[s as int],
                    other@ == ov,
                    ov.wf(),
                    s < n,
                    n == ov.states.len(),
                    offset + n <= usize::MAX,
                    k <= st.arcs@.len(),
                    starcs == ov.states[s as int].arcs,
                    starcs.len() == st.arcs@.len(),
                    arcs@.len() == k,
                    forall|j: int|
                        0 <= j < k ==> #[trigger] arcs@[j]@ == offset_arc(starcs[j], offset as int),
                decreases st.arcs@.len() - k,
            {
                let a = &st.arcs[k];
                proof {
                    assert(starcs[k as int] == st.arcs@[k as int]@);
                    assert(a@.nextstate < n);
                }
                arcs.push(
                    Arc {
                        ilabel: a.ilabel,
                        olabel: a.olabel,
                        weight: a.weight.sclone(),
                        nextstate: a.nextstate + offset,
                    },
                );
                k = k + 1;
            }
            let final_weight = match &st.final_weight {
                Some(w) => Some(w.sclone()),
                None => None,
            };
            mapping.push(offset + s);
            let ghost prev_states = self@.states;
            self.states.push(VectorFstState { final_weight, arcs });
            proof {
                assert forall|i: int| 0 <= i < offset + s implies #[trigger] self@.states[i]
                    == prev_states[i] by {
                    assert(self@.states[i] == self.states@[i]@);
                    assert(prev_states[i] == self.states@[i]@);
                }
                assert(self@.states[offset + s as int] == self.states@[offset + s as int]@);
                assert(self@.states[offset + s as int].arcs =~= offset_state(
                    ov.states[s as int],
                    offset as int,
                ).arcs);
                assert(self@.states[offset + s as int] =~= offset_state(
                    ov.states[s as int],
                    offset as int,
                ));
                assert forall|i: int|
                    offset <= i < offset + s + 1 implies #[trigger] self@.states[i]
                        == offset_state(ov.states[i - offset], offset as int) by {
                    if i < offset + s {
                        assert(self@.states[i] == prev_states[i]);
                    }
                }
            }
            s = s + 1;
        }
        proof {
            let combined = of.states + offset_states(ov.states, offset as int);
            assert(combined.len() == offset + n);
            assert forall|i: int| 0 <= i < combined.len() implies self@.states[i] == combined[i] by {
                if i < offset {
                    assert(combined[i] == of.states[i]);
                } else {
                    assert(combined[i] == offset_states(ov.states, offset as int)[i - offset]);
                    assert(offset_states(ov.states, offset as int)[i - offset] == offset_state(
                        ov.states[i - offset],
                        offset as int,
                    ));
                }
            }
            assert(self@.states =~= combined);
            assert(self@ =~= (FstV { states: combined, start: of.start }));
        }
        Ok(mapping)
    }
}

} // verus!
