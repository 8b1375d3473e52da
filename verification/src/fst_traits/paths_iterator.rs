//! Breadth-first enumeration of the paths accepted by an FST.

use std::collections::VecDeque;

use vstd::prelude::*;

use crate::arc::ArcV;
use crate::errors::FstError;
use crate::fst_impls::vector_fst::{FstV, VectorFst};
use crate::fst_path::{FstPath, PathV};
use crate::semirings::semiring::Semiring;
use crate::{Label, StateId, EPS_LABEL};

verus! {

/// A path value extended by one arc: the weight is multiplied in and the
/// non-epsilon labels are appended.
pub open spec fn path_extends<W: Semiring>(p: PathV<<W as View>::V>, a: ArcV<<W as View>::V>) -> PathV<
    <W as View>::V,
> {
    PathV {
        ilabels: p.ilabels + (if a.ilabel != EPS_LABEL {
            seq![a.ilabel]
        } else {
            Seq::empty()
        }),
        olabels: p.olabels + (if a.olabel != EPS_LABEL {
            seq![a.olabel]
        } else {
            Seq::empty()
        }),
        weight: W::sv_times(p.weight, a.weight),
    }
}

/// One valid step of a run: the state exists, the arc index is in range,
/// and the arc leads to the next state of the run.
pub open spec fn run_step_ok<W: Semiring>(
    f: FstV<<W as View>::V>,
    states: Seq<StateId>,
    arcidx: Seq<int>,
    k: int,
) -> bool {
    &&& states[k] < f.states.len()
    &&& 0 <= arcidx[k] < f.states[states[k] as int].arcs.len()
    &&& f.states[states[k] as int].arcs[arcidx[k]].nextstate == states[k + 1]
}

/// A run through an FST: a state sequence starting at the start state,
/// each step following an existing arc.
pub open spec fn is_run<W: Semiring>(
    f: FstV<<W as View>::V>,
    states: Seq<StateId>,
    arcidx: Seq<int>,
) -> bool {
    &&& states.len() == arcidx.len() + 1
    &&& f.start == Some(states[0])
    &&& (forall|k: int| 0 <= k < arcidx.len() ==> #[trigger] run_step_ok::<W>(f, states, arcidx, k))
    &&& states.last() < f.states.len()
}

/// The path value read along a run.
pub open spec fn run_fold<W: Semiring>(
    f: FstV<<W as View>::V>,
    states: Seq<StateId>,
    arcidx: Seq<int>,
) -> PathV<<W as View>::V>
    decreases arcidx.len(),
{
    if arcidx.len() == 0 {
        PathV {
            ilabels: Seq::<Label>::empty(),
            olabels: Seq::<Label>::empty(),
            weight: W::sv_one(),
        }
    } else {
        path_extends::<W>(
            run_fold::<W>(f, states.drop_last(), arcidx.drop_last()),
            f.states[states[arcidx.len() - 1] as int].arcs[arcidx.last()],
        )
    }
}

/// Whether every weight product along a run is defined.
pub open spec fn run_ok<W: Semiring>(
    f: FstV<<W as View>::V>,
    states: Seq<StateId>,
    arcidx: Seq<int>,
) -> bool
    decreases arcidx.len(),
{
    if arcidx.len() == 0 {
        true
    } else {
        run_ok::<W>(f, states.drop_last(), arcidx.drop_last()) && W::times_ok(
            run_fold::<W>(f, states.drop_last(), arcidx.drop_last()).weight,
            f.states[states[arcidx.len() - 1] as int].arcs[arcidx.last()].weight,
        )
    }
}

/// An accepting run: a run ending in a final state, with every weight
/// product along it (including the final one) defined.
pub open spec fn is_accepting_run<W: Semiring>(
    f: FstV<<W as View>::V>,
    states: Seq<StateId>,
    arcidx: Seq<int>,
) -> bool {
    &&& is_run::<W>(f, states, arcidx)
    &&& run_ok::<W>(f, states, arcidx)
    &&& (f.states[states.last() as int].final_weight matches Some(fw) && W::times_ok(
        run_fold::<W>(f, states, arcidx).weight,
        fw,
    ))
}

/// The path value an accepting run reads: the fold of its arcs with the
/// final weight multiplied in.
pub open spec fn run_value<W: Semiring>(
    f: FstV<<W as View>::V>,
    states: Seq<StateId>,
    arcidx: Seq<int>,
) -> PathV<<W as View>::V> {
    let body = run_fold::<W>(f, states, arcidx);
    PathV {
        ilabels: body.ilabels,
        olabels: body.olabels,
        weight: W::sv_times(body.weight, f.states[states.last() as int].final_weight.unwrap()),
    }
}

/// One run is a prefix of another.
pub open spec fn run_prefix(s1: Seq<StateId>, a1: Seq<int>, s2: Seq<StateId>, a2: Seq<int>) -> bool {
    &&& a1.len() <= a2.len()
    &&& s1.len() == a1.len() + 1
    &&& s1 == s2.take(s1.len() as int)
    &&& a1 == a2.take(a1.len() as int)
}

/// A path the FST accepts: the value of some accepting run.
pub open spec fn is_accepted_path<W: Semiring>(
    f: FstV<<W as View>::V>,
    p: PathV<<W as View>::V>,
) -> bool {
    exists|states: Seq<StateId>, arcidx: Seq<int>|
        {
            let body = #[trigger] run_fold::<W>(f, states, arcidx);
            &&& is_run::<W>(f, states, arcidx)
            &&& run_ok::<W>(f, states, arcidx)
            &&& (f.states[states.last() as int].final_weight matches Some(fw) && W::times_ok(
                body.weight,
                fw,
            ) && p == (PathV {
                ilabels: body.ilabels,
                olabels: body.olabels,
                weight: W::sv_times(body.weight, fw),
            }))
        }
}

/// Extending a run by one arc of its last state yields a run.
#[verifier::spinoff_prover]
#[verifier::rlimit(30)]
pub proof fn lemma_run_extend<W: Semiring>(
    f: FstV<<W as View>::V>,
    states: Seq<StateId>,
    arcidx: Seq<int>,
    i: int,
)
    requires
        is_run::<W>(f, states, arcidx),
        0 <= i < f.states[states.last() as int].arcs.len(),
        f.states[states.last() as int].arcs[i].nextstate < f.states.len(),
    ensures
        is_run::<W>(
            f,
            states.push(f.states[states.last() as int].arcs[i].nextstate),
            arcidx.push(i),
        ),
        run_fold::<W>(
            f,
            states.push(f.states[states.last() as int].arcs[i].nextstate),
            arcidx.push(i),
        ) == path_extends::<W>(
            run_fold::<W>(f, states, arcidx),
            f.states[states.last() as int].arcs[i],
        ),
        run_ok::<W>(f, states, arcidx) && W::times_ok(
            run_fold::<W>(f, states, arcidx).weight,
            f.states[states.last() as int].arcs[i].weight,
        ) ==> run_ok::<W>(
            f,
            states.push(f.states[states.last() as int].arcs[i].nextstate),
            arcidx.push(i),
        ),
{
    let t = f.states[states.last() as int].arcs[i].nextstate;
    let ns = states.push(t);
    let na = arcidx.push(i);
    assert(ns.drop_last() =~= states);
    assert(na.drop_last() =~= arcidx);
    assert(ns[0] == states[0]);
    assert forall|k: int| 0 <= k < na.len() implies #[trigger] run_step_ok::<W>(f, ns, na, k) by {
        if k < arcidx.len() {
            assert(run_step_ok::<W>(f, states, arcidx, k));
            assert(ns[k] == states[k]);
            assert(na[k] == arcidx[k]);
            assert(ns[k + 1] == states[k + 1]);
        } else {
            assert(k == arcidx.len());
            assert(ns[k] == states.last());
            assert(na[k] == i);
            assert(ns[k + 1] == t);
        }
    }
    assert(na[na.len() - 1] == i);
    assert(ns[na.len() - 1] == states.last());
    assert(run_fold::<W>(f, ns, na) == path_extends::<W>(
        run_fold::<W>(f, states, arcidx),
        f.states[states.last() as int].arcs[i],
    ));
}


/// A run, as carried by the iterator's ghost bookkeeping.
pub type RunPair = (Seq<StateId>, Seq<int>);

/// The run one arc shorter: the run this one was created from.
pub open spec fn run_parent(r: RunPair) -> RunPair {
    (r.0.drop_last(), r.1.drop_last())
}

/// Membership in a run sequence after a push.
proof fn lemma_push_contains_run(sq: Seq<RunPair>, x: RunPair, y: RunPair)
    ensures
        sq.push(x).contains(y) <==> (sq.contains(y) || x == y),
{
    if sq.push(x).contains(y) {
        let k = choose|k: int| 0 <= k < sq.push(x).len() && sq.push(x)[k] == y;
        if k < sq.len() {
            assert(sq[k] == y);
            assert(sq.contains(y));
        }
    }
    if sq.contains(y) {
        let k = choose|k: int| 0 <= k < sq.len() && sq[k] == y;
        assert(sq.push(x)[k] == y);
        assert(sq.push(x).contains(y));
    }
    if x == y {
        assert(sq.push(x)[sq.len() as int] == y);
        assert(sq.push(x).contains(y));
    }
}

/// Iterator over the paths accepted by an FST, in breadth-first order.
/// The FST it was built from is passed again to [`Self::next`]; it must
/// not change between calls.
pub struct StructPathsIterator<W: Semiring> {
    /// Pending partial paths: the state reached, the path value read so
    /// far, and (ghost) the run that reads it.
    queue: VecDeque<(StateId, FstPath<W>, Ghost<(Seq<StateId>, Seq<int>)>)>,
    /// The view of the FST being enumerated.
    snapshot: Ghost<FstV<<W as View>::V>>,
    /// The values of the paths yielded so far, in order.
    emitted: Ghost<Seq<PathV<<W as View>::V>>>,
    /// The runs whose values were yielded, in order.
    yruns: Ghost<Seq<RunPair>>,
    /// Every run popped from the queue so far, in pop order.
    seen: Ghost<Seq<RunPair>>,
}

impl<W: Semiring> StructPathsIterator<W> {
    /// The view of the FST this iterator was built from.
    pub closed spec fn fst_view(&self) -> FstV<<W as View>::V> {
        self.snapshot@
    }

    /// Internal invariant: every queued entry is a valid partial path, the
    /// yield bookkeeping is consistent (each yielded run is accepting,
    /// distinct, and reads the yielded value), and every run occurs at
    /// most once across the pop history and the queue.
    pub closed spec fn inv(&self) -> bool {
        &&& self.snapshot@.wf()
        &&& (forall|i: int|
            0 <= i < self.queue@.len() ==> {
                let e = #[trigger] self.queue@[i];
                &&& e.0 < self.snapshot@.states.len()
                &&& is_run::<W>(self.snapshot@, e.2@.0, e.2@.1)
                &&& run_ok::<W>(self.snapshot@, e.2@.0, e.2@.1)
                &&& e.2@.0.last() == e.0
                &&& e.1@ == run_fold::<W>(self.snapshot@, e.2@.0, e.2@.1)
            })
        &&& self.emitted@.len() == self.yruns@.len()
        &&& (forall|k: int|
            0 <= k < self.yruns@.len() ==> {
                let yr = #[trigger] self.yruns@[k];
                &&& is_accepting_run::<W>(self.snapshot@, yr.0, yr.1)
                &&& self.emitted@[k] == run_value::<W>(self.snapshot@, yr.0, yr.1)
            })
        &&& (forall|k1: int, k2: int|
            0 <= k1 < k2 < self.yruns@.len() ==> #[trigger] self.yruns@[k1]
                != #[trigger] self.yruns@[k2])
        &&& (forall|k: int|
            0 <= k < self.yruns@.len() ==> self.seen@.contains(#[trigger] self.yruns@[k]))
        &&& (forall|i: int|
            0 <= i < self.queue@.len() ==> !self.seen@.contains((#[trigger] self.queue@[i]).2@))
        &&& (forall|i1: int, i2: int|
            0 <= i1 < i2 < self.queue@.len() ==> (#[trigger] self.queue@[i1]).2@ != (
            #[trigger] self.queue@[i2]).2@)
        &&& (forall|i: int|
            0 <= i < self.queue@.len() ==> ((#[trigger] self.queue@[i]).2@.1.len() == 0 || exists|
                j: int,
            | 0 <= j < self.seen@.len() && self.seen@[j] == run_parent(self.queue@[i].2@)))
        &&& (forall|k: int|
            0 <= k < self.seen@.len() ==> ((#[trigger] self.seen@[k]).1.len() == 0 || exists|
                j: int,
            | 0 <= j < k && self.seen@[j] == run_parent(self.seen@[k])))
        &&& (forall|k1: int, k2: int|
            0 <= k1 < k2 < self.seen@.len() ==> #[trigger] self.seen@[k1]
                != #[trigger] self.seen@[k2])
        &&& (forall|i: int, k: int|
            0 <= i < self.queue@.len() && 0 <= k < self.yruns@.len() ==> (
            #[trigger] self.queue@[i]).2@ != #[trigger] self.yruns@[k])
    }

    /// The runs whose values were yielded so far, in order.
    pub closed spec fn yielded_runs(&self) -> Seq<RunPair> {
        self.yruns@
    }

    /// Number of pending partial paths examined since construction.
    pub closed spec fn processed(&self) -> nat {
        self.seen@.len()
    }

    /// The values of the paths yielded so far, in order.
    pub closed spec fn yielded(&self) -> Seq<PathV<<W as View>::V>> {
        self.emitted@
    }

    /// Whether the enumeration is over: no partial path is pending.
    pub closed spec fn exhausted(&self) -> bool {
        self.queue@.len() == 0
    }

    /// Completeness invariant: every accepting run has either been yielded
    /// already, or extends a pending partial path.
    pub closed spec fn covers(&self) -> bool {
        forall|states: Seq<StateId>, arcidx: Seq<int>|
            #[trigger] is_accepting_run::<W>(self.snapshot@, states, arcidx)
                ==> self.yruns@.contains((states, arcidx)) || (exists|i: int|
                0 <= i < self.queue@.len() && run_prefix(
                    (#[trigger] self.queue@[i]).2@.0,
                    self.queue@[i].2@.1,
                    states,
                    arcidx,
                ))
    }

    /// Builds an iterator positioned at the start state of `fst`.
    pub fn new(fst: &VectorFst<W>) -> (r: Self)
        requires
            fst@.wf(),
        ensures
            r.inv(),
            r.covers(),
            r.fst_view() == fst@,
            r.yielded() == Seq::<PathV<<W as View>::V>>::empty(),
            r.yielded_runs() == Seq::<RunPair>::empty(),
            r.processed() == 0,
    {
        let mut queue: VecDeque<(StateId, FstPath<W>, Ghost<(Seq<StateId>, Seq<int>)>)> =
            VecDeque::new();
        match fst.start() {
            Some(state_start) => {
                let p: FstPath<W> = Default::default();
                let ghost run = (seq![state_start], Seq::<int>::empty());
                proof {
                    assert(is_run::<W>(fst@, run.0, run.1));
                    assert(p@ =~~= run_fold::<W>(fst@, run.0, run.1));
                }
                queue.push_back((state_start, p, Ghost(run)));
            },
            None => {},
        }
        let r = StructPathsIterator {
            queue,
            snapshot: Ghost(fst@),
            emitted: Ghost(Seq::empty()),
            yruns: Ghost(Seq::empty()),
            seen: Ghost(Seq::empty()),
        };
        proof {
            assert forall|states: Seq<StateId>, arcidx: Seq<int>|
                #[trigger] is_accepting_run::<W>(fst@, states, arcidx) implies r.emitted@.contains(
                run_value::<W>(fst@, states, arcidx),
            ) || (exists|i: int|
                0 <= i < r.queue@.len() && run_prefix(
                    (#[trigger] r.queue@[i]).2@.0,
                    r.queue@[i].2@.1,
                    states,
                    arcidx,
                )) by {
                match fst@.start {
                    Some(st) => {
                        assert(states[0] == st);
                        assert(states.take(1) =~= seq![st]);
                        assert(arcidx.take(0) =~= Seq::<int>::empty());
                        assert(run_prefix(
                            r.queue@[0].2@.0,
                            r.queue@[0].2@.1,
                            states,
                            arcidx,
                        ));
                    },
                    None => {},
                }
            }
            assert(r.covers());
        }
        r
    }

    /// Expands one pending partial path: appends, for every arc of its
    /// last state, the extended partial path to the queue.  The pop of the
    /// entry has already been recorded in the history.
    #[verifier::rlimit(100)]
    fn expand_entry(
        &mut self,
        fst: &VectorFst<W>,
        state_id: StateId,
        path: &FstPath<W>,
        Ghost(run): Ghost<RunPair>,
        Ghost(seen_pre): Ghost<Seq<RunPair>>,
    ) -> (r: Result<(), FstError>)
        requires
            fst@.wf(),
            old(self).inv(),
            old(self).fst_view() == fst@,
            state_id < fst@.states.len(),
            is_run::<W>(fst@, run.0, run.1),
            run_ok::<W>(fst@, run.0, run.1),
            run.0.last() == state_id,
            path@ == run_fold::<W>(fst@, run.0, run.1),
            old(self).seen@ == seen_pre.push(run),
            !seen_pre.contains(run),
            forall|k: int| 0 <= k < old(self).yruns@.len() ==> #[trigger] old(self).yruns@[k] != run,
            forall|i2: int|
                0 <= i2 < old(self).queue@.len() ==> ((#[trigger] old(self).queue@[i2]).2@.1.len()
                    == 0 || exists|j: int|
                    0 <= j < seen_pre.len() && seen_pre[j] == run_parent(
                        old(self).queue@[i2].2@,
                    )),
            forall|s2: Seq<StateId>, a2: Seq<int>|
                #[trigger] is_accepting_run::<W>(fst@, s2, a2) ==> old(self).yruns@.contains(
                    (s2, a2),
                ) || (exists|i2: int|
                    0 <= i2 < old(self).queue@.len() && run_prefix(
                        (#[trigger] old(self).queue@[i2]).2@.0,
                        old(self).queue@[i2].2@.1,
                        s2,
                        a2,
                    )) || (run_prefix(run.0, run.1, s2, a2) && (a2.len() == run.1.len() || a2[
                    run.1.len() as int
                ] >= 0)),
        ensures
            final(self).inv(),
            final(self).fst_view() == fst@,
            final(self).emitted@ == old(self).emitted@,
            final(self).yruns@ == old(self).yruns@,
            final(self).seen@ == old(self).seen@,
            r is Ok ==> (forall|s2: Seq<StateId>, a2: Seq<int>|
                #[trigger] is_accepting_run::<W>(fst@, s2, a2) ==> final(self).yruns@.contains(
                    (s2, a2),
                ) || (exists|i2: int|
                    0 <= i2 < final(self).queue@.len() && run_prefix(
                        (#[trigger] final(self).queue@[i2]).2@.0,
                        final(self).queue@[i2].2@.1,
                        s2,
                        a2,
                    )) || (run_prefix(run.0, run.1, s2, a2) && (a2.len() == run.1.len() || a2[
                    run.1.len() as int
                ] >= fst@.states[state_id as int].arcs.len()))),
            r matches Err(e) ==> e matches FstError::Weight(_),
            r is Err ==> (exists|s2: Seq<StateId>, a2: Seq<int>|
                #[trigger] is_run::<W>(fst@, s2, a2) && run_ok::<W>(fst@, s2, a2) && ((exists|
                    i2: int,
                |
                    0 <= i2 < fst@.states[s2.last() as int].arcs.len() && !W::times_ok(
                        run_fold::<W>(fst@, s2, a2).weight,
                        fst@.states[s2.last() as int].arcs[i2].weight,
                    )) || (fst@.states[s2.last() as int].final_weight matches Some(fw)
                    && !W::times_ok(run_fold::<W>(fst@, s2, a2).weight, fw)))),
    {
            let ghost rem_q = self.queue@;
            let ghost rem_len = rem_q.len() as int;
            let narcs = fst.states[state_id].arcs.len();
            let mut i: usize = 0;
            while i < narcs
                invariant
                    fst@.wf(),
                    self.inv(),
                    self.fst_view() == fst@,
                    self.emitted@ == old(self).emitted@,
                    self.yruns@ == old(self).yruns@,
                    state_id < fst@.states.len(),
                    narcs == fst@.states[state_id as int].arcs.len(),
                    i <= narcs,
                    is_run::<W>(fst@, run.0, run.1),
                    run_ok::<W>(fst@, run.0, run.1),
                    run.0.last() == state_id,
                    path@ == run_fold::<W>(fst@, run.0, run.1),
                    self.seen@ == seen_pre.push(run),
                    !seen_pre.contains(run),
                    old(self).seen@ == seen_pre.push(run),
                    rem_len == rem_q.len() as int,
                    rem_q == old(self).queue@,
                    forall|k: int| 0 <= k < self.yruns@.len() ==> #[trigger] self.yruns@[k] != run,
                    self.queue@.len() == rem_len + i,
                    forall|i2: int| 0 <= i2 < rem_len ==> #[trigger] self.queue@[i2] == rem_q[i2],
                    forall|i2: int|
                        0 <= i2 < rem_len ==> ((#[trigger] self.queue@[i2]).2@.1.len() == 0
                            || exists|j: int|
                            0 <= j < seen_pre.len() && seen_pre[j] == run_parent(
                                self.queue@[i2].2@,
                            )),
                    forall|j: int|
                        rem_len <= j < self.queue@.len() ==> run_parent(
                            (#[trigger] self.queue@[j]).2@,
                        ) == run && self.queue@[j].2@.1.len() == run.1.len() + 1
                            && self.queue@[j].2@.1.last() == j - rem_len,
                    forall|s2: Seq<StateId>, a2: Seq<int>|
                        #[trigger] is_accepting_run::<W>(fst@, s2, a2) ==> self.yruns@.contains(
                            (s2, a2),
                        ) || (exists|i2: int|
                            0 <= i2 < self.queue@.len() && run_prefix(
                                (#[trigger] self.queue@[i2]).2@.0,
                                self.queue@[i2].2@.1,
                                s2,
                                a2,
                            )) || (run_prefix(run.0, run.1, s2, a2) && (a2.len() == run.1.len()
                            || a2[run.1.len() as int] >= i)),
                decreases narcs - i,
            {
                let arc = &fst.states[state_id].arcs[i];
                proof {
                    assert(arc@ == fst@.states[state_id as int].arcs[i as int]);
                    assert(arc@.nextstate < fst@.states.len());
                }
                let mut new_path = path.sclone();
                match new_path.add_to_path(arc.ilabel, arc.olabel, &arc.weight) {
                    Ok(_) => {},
                    Err(e) => {
                        proof {
                            assert(!W::times_ok(
                                run_fold::<W>(fst@, run.0, run.1).weight,
                                fst@.states[run.0.last() as int].arcs[i as int].weight,
                            ));
                        }
                        return Err(FstError::Weight(e));
                    },
                }
                let ghost new_run = (run.0.push(arc@.nextstate), run.1.push(i as int));
                proof {
                    lemma_run_extend::<W>(fst@, run.0, run.1, i as int);
                    assert(new_path@ =~~= run_fold::<W>(fst@, new_run.0, new_run.1));
                    assert(run_parent(new_run) =~~= run) by {
                        assert(new_run.0.drop_last() =~= run.0);
                        assert(new_run.1.drop_last() =~= run.1);
                    }
                    // the freshly created run was never seen: its parent
                    // enters the history only now, at the last position
                    assert(!self.seen@.contains(new_run)) by {
                        if self.seen@.contains(new_run) {
                            let k = choose|k: int|
                                0 <= k < self.seen@.len() && self.seen@[k] == new_run;
                            assert(new_run.1.len() != 0);
                            let j = choose|j: int|
                                0 <= j < k && self.seen@[j] == run_parent(self.seen@[k]);
                            assert(self.seen@[j] == run);
                            assert(self.seen@[seen_pre.len() as int] == run);
                            if j < seen_pre.len() {
                                assert(seen_pre[j] == run);
                                assert(seen_pre.contains(run));
                                assert(false);
                            }
                            assert(j == seen_pre.len());
                            assert(k > seen_pre.len());
                            assert(k < self.seen@.len() == seen_pre.len() + 1);
                            assert(false);
                        }
                    }
                }
                let ghost rq = self.queue@;
                let ghost new_path_view = new_path@;
                self.queue.push_back((arc.nextstate, new_path, Ghost(new_run)));
                proof {
                    assert(self.queue@.len() == rq.len() + 1);
                    assert(self.queue@.take(rq.len() as int) =~= rq);
                    assert(self.queue@[rq.len() as int].0 == arc.nextstate);
                    assert(self.queue@[rq.len() as int].1@ == new_path_view);
                    assert(self.queue@[rq.len() as int].2@ == new_run);
                    // the new entry's run differs from every other pending run
                    assert forall|i2: int|
                        0 <= i2 < rq.len() implies (#[trigger] self.queue@[i2]).2@ != new_run by {
                        assert(self.queue@[i2] == self.queue@.take(rq.len() as int)[i2]);
                        assert(self.queue@[i2] == rq[i2]);
                        if i2 < rem_len {
                            if rq[i2].2@ == new_run {
                                assert(rq[i2].2@.1.len() != 0);
                                let j = choose|j: int|
                                    0 <= j < seen_pre.len() && seen_pre[j] == run_parent(
                                        rq[i2].2@,
                                    );
                                assert(seen_pre[j] == run);
                                assert(seen_pre.contains(run));
                                assert(false);
                            }
                        } else {
                            assert(rq[i2].2@.1.last() == i2 - rem_len);
                            assert(new_run.1.last() == i as int);
                            if rq[i2].2@ == new_run {
                                assert(i2 - rem_len == i as int);
                                assert(false);
                            }
                        }
                    }
                    // nor from any yielded run
                    assert forall|k: int|
                        0 <= k < self.yruns@.len() implies #[trigger] self.yruns@[k]
                        != new_run by {
                        assert(self.seen@.contains(self.yruns@[k]));
                    }
                    assert forall|j: int|
                        rem_len <= j < self.queue@.len() implies run_parent(
                        (#[trigger] self.queue@[j]).2@,
                    ) == run && self.queue@[j].2@.1.len() == run.1.len() + 1
                        && self.queue@[j].2@.1.last() == j - rem_len by {
                        if j < rq.len() {
                            assert(self.queue@[j] == self.queue@.take(rq.len() as int)[j]);
                            assert(self.queue@[j] == rq[j]);
                        } else {
                            assert(self.queue@[j].2@ == new_run);
                        }
                    }
                    assert forall|i2: int|
                        0 <= i2 < rem_len implies #[trigger] self.queue@[i2] == rem_q[i2] by {
                        assert(self.queue@[i2] == self.queue@.take(rq.len() as int)[i2]);
                        assert(self.queue@[i2] == rq[i2]);
                    }
                    assert(self.queue@[rq.len() as int].2@.1.len() != 0);
                    assert(exists|j: int|
                        0 <= j < self.seen@.len() && self.seen@[j] == run_parent(new_run)) by {
                        assert(self.seen@[seen_pre.len() as int] == run);
                    }
                    assert(self.inv());
                    // cover the runs whose next step is this arc
                    assert forall|s2: Seq<StateId>, a2: Seq<int>|
                        #[trigger] is_accepting_run::<W>(fst@, s2, a2) implies self.yruns@.contains(
                        (s2, a2),
                    ) || (exists|i2: int|
                        0 <= i2 < self.queue@.len() && run_prefix(
                            (#[trigger] self.queue@[i2]).2@.0,
                            self.queue@[i2].2@.1,
                            s2,
                            a2,
                        )) || (run_prefix(run.0, run.1, s2, a2) && (a2.len() == run.1.len()
                        || a2[run.1.len() as int] >= i + 1)) by {
                        if !self.yruns@.contains((s2, a2)) {
                            if exists|i2: int|
                                0 <= i2 < rq.len() && run_prefix(
                                    (#[trigger] rq[i2]).2@.0,
                                    rq[i2].2@.1,
                                    s2,
                                    a2,
                                ) {
                                let i2 = choose|i2: int|
                                    0 <= i2 < rq.len() && run_prefix(
                                        (#[trigger] rq[i2]).2@.0,
                                        rq[i2].2@.1,
                                        s2,
                                        a2,
                                    );
                                assert(self.queue@[i2] == rq[i2]);
                            } else if run_prefix(run.0, run.1, s2, a2) && a2.len() > run.1.len()
                                && a2[run.1.len() as int] == i {
                                let k = run.1.len() as int;
                                assert(run_step_ok::<W>(fst@, s2, a2, k));
                                assert(s2.take(k + 1) == run.0);
                                assert(s2[k] == run.0.last());
                                assert(s2[k + 1] == arc@.nextstate);
                                assert(s2.take(k + 2) =~= new_run.0);
                                assert(a2.take(k + 1) =~= new_run.1);
                                assert(run_prefix(new_run.0, new_run.1, s2, a2));
                            }
                        }
                    }
                }
                i = i + 1;
            }

        Ok(())
    }


    /// Yields the next accepted path, or `None` when the enumeration is
    /// exhausted: every accepting run has then been yielded, each exactly
    /// once.  Fails with `Weight` when a weight product along a pending
    /// path is undefined (that path is abandoned, so completeness is no
    /// longer promised), or with `EnumerationLimit` when the given budget
    /// was spent: exactly `fuel` further pending partial paths were
    /// examined; a cyclic FST recognizes infinitely many paths, so a
    /// search budget is required.
    #[verifier::spinoff_prover]
    #[verifier::rlimit(100)]
    pub fn next(&mut self, fst: &VectorFst<W>, fuel: usize) -> (r: Result<
        Option<FstPath<W>>,
        FstError,
    >)
        requires
            fst@.wf(),
            old(self).inv(),
            old(self).covers(),
            old(self).fst_view() == fst@,
        ensures
            final(self).inv(),
            final(self).fst_view() == fst@,
            r matches Ok(_) ==> final(self).covers(),
            r matches Ok(Some(p)) ==> is_accepted_path::<W>(fst@, p@) && final(self).yielded()
                == old(self).yielded().push(p@) && final(self).yielded_runs().len()
                == old(self).yielded_runs().len() + 1,
            r matches Ok(p2) && p2 is None ==> final(self).exhausted() && final(self).yielded()
                == old(self).yielded(),
            r is Err ==> final(self).yielded() == old(self).yielded(),
            r matches Err(e) ==> (e matches FstError::Weight(_) || e
                == FstError::EnumerationLimit),
            r matches Err(e) && e == FstError::EnumerationLimit ==> final(self).covers()
                && final(self).processed() == old(self).processed() + fuel,
            (r matches Err(e) && e matches FstError::Weight(_)) ==> (exists|
                s2: Seq<StateId>,
                a2: Seq<int>,
            |
                #[trigger] is_run::<W>(fst@, s2, a2) && run_ok::<W>(fst@, s2, a2) && ((exists|
                    i2: int,
                |
                    0 <= i2 < fst@.states[s2.last() as int].arcs.len() && !W::times_ok(
                        run_fold::<W>(fst@, s2, a2).weight,
                        fst@.states[s2.last() as int].arcs[i2].weight,
                    )) || (fst@.states[s2.last() as int].final_weight matches Some(fw)
                    && !W::times_ok(run_fold::<W>(fst@, s2, a2).weight, fw)))),
            final(self).processed() >= old(self).processed(),
    {
        let mut steps: usize = 0;
        while self.queue.len() > 0
            invariant
                fst@.wf(),
                self.inv(),
                self.covers(),
                self.fst_view() == fst@,
                self.emitted@ == old(self).emitted@,
                self.yruns@ == old(self).yruns@,
                self.seen@.len() == old(self).seen@.len() + steps,
                steps <= fuel,
            decreases fuel - steps,
        {
            if steps == fuel {
                return Err(FstError::EnumerationLimit);
            }
            steps = steps + 1;
            let ghost pre_q = self.queue@;
            let ghost seen_pre = self.seen@;
            let front = self.queue.pop_front();
            let (state_id, mut path, run) = match front {
                Some(e) => e,
                None => {
                    return Ok(None);
                },
            };
            proof {
                assert(self.queue@ =~= pre_q.skip(1));
                assert(pre_q[0].2 == run);
                assert(!seen_pre.contains(run@));
                // record the pop
                self.seen@ = self.seen@.push(run@);
                assert forall|i2: int|
                    0 <= i2 < self.queue@.len() implies !self.seen@.contains(
                    (#[trigger] self.queue@[i2]).2@,
                ) by {
                    assert(self.queue@[i2] == pre_q[i2 + 1]);
                    lemma_push_contains_run(seen_pre, run@, self.queue@[i2].2@);
                }
                // parents of the remaining entries were recorded earlier
                assert forall|i2: int|
                    0 <= i2 < self.queue@.len() implies ((#[trigger] self.queue@[i2]).2@.1.len()
                    == 0 || exists|j: int|
                    0 <= j < seen_pre.len() && seen_pre[j] == run_parent(self.queue@[i2].2@)) by {
                    assert(self.queue@[i2] == pre_q[i2 + 1]);
                    if pre_q[i2 + 1].2@.1.len() != 0 {
                        let j = choose|j: int|
                            0 <= j < seen_pre.len() && seen_pre[j] == run_parent(
                                pre_q[i2 + 1].2@,
                            );
                        assert(seen_pre[j] == run_parent(self.queue@[i2].2@));
                    }
                }
                // the popped entry itself keeps the ordering of the history
                if run@.1.len() != 0 {
                    let j = choose|j: int|
                        0 <= j < seen_pre.len() && seen_pre[j] == run_parent(pre_q[0].2@);
                    assert(self.seen@[j] == run_parent(run@));
                }
                assert forall|k: int|
                    0 <= k < self.yruns@.len() implies self.seen@.contains(
                    #[trigger] self.yruns@[k],
                ) by {
                    assert(seen_pre.contains(self.yruns@[k]));
                    lemma_push_contains_run(seen_pre, run@, self.yruns@[k]);
                }
                assert forall|k1: int, k2: int|
                    0 <= k1 < k2 < self.seen@.len() implies #[trigger] self.seen@[k1]
                    != #[trigger] self.seen@[k2] by {
                    if k2 == seen_pre.len() {
                        if self.seen@[k1] == run@ {
                            assert(seen_pre[k1] == run@);
                            assert(seen_pre.contains(run@));
                        }
                    }
                }
                assert forall|k: int|
                    0 <= k < self.seen@.len() implies ((#[trigger] self.seen@[k]).1.len() == 0
                    || exists|j: int|
                    0 <= j < k && self.seen@[j] == run_parent(self.seen@[k])) by {
                    if k < seen_pre.len() && seen_pre[k].1.len() != 0 {
                        let j = choose|j: int|
                            0 <= j < k && seen_pre[j] == run_parent(seen_pre[k]);
                        assert(self.seen@[j] == run_parent(self.seen@[k]));
                    }
                }
                assert forall|i2: int, k: int|
                    0 <= i2 < self.queue@.len() && 0 <= k < self.yruns@.len() implies (
                #[trigger] self.queue@[i2]).2@ != #[trigger] self.yruns@[k] by {
                    assert(self.queue@[i2] == pre_q[i2 + 1]);
                }
                assert forall|i1: int, i2: int|
                    0 <= i1 < i2 < self.queue@.len() implies (#[trigger] self.queue@[i1]).2@ != (
                #[trigger] self.queue@[i2]).2@ by {
                    assert(self.queue@[i1] == pre_q[i1 + 1]);
                    assert(self.queue@[i2] == pre_q[i2 + 1]);
                }
                assert forall|i2: int|
                    0 <= i2 < self.queue@.len() implies ((#[trigger] self.queue@[i2]).2@.1.len()
                    == 0 || exists|j: int|
                    0 <= j < self.seen@.len() && self.seen@[j] == run_parent(
                        self.queue@[i2].2@,
                    )) by {
                    if self.queue@[i2].2@.1.len() != 0 {
                        let j = choose|j: int|
                            0 <= j < seen_pre.len() && seen_pre[j] == run_parent(
                                self.queue@[i2].2@,
                            );
                        assert(self.seen@[j] == seen_pre[j]);
                    }
                }
                assert forall|i2: int|
                    0 <= i2 < self.queue@.len() implies {
                    let e = #[trigger] self.queue@[i2];
                    &&& e.0 < self.snapshot@.states.len()
                    &&& is_run::<W>(self.snapshot@, e.2@.0, e.2@.1)
                    &&& run_ok::<W>(self.snapshot@, e.2@.0, e.2@.1)
                    &&& e.2@.0.last() == e.0
                    &&& e.1@ == run_fold::<W>(self.snapshot@, e.2@.0, e.2@.1)
                } by {
                    assert(self.queue@[i2] == pre_q[i2 + 1]);
                }
                assert(self.inv());
                // every accepting run formerly covered by the popped entry
                // now falls to the pending-extension case
                assert forall|s2: Seq<StateId>, a2: Seq<int>|
                    #[trigger] is_accepting_run::<W>(fst@, s2, a2) implies self.yruns@.contains(
                    (s2, a2),
                ) || (exists|i2: int|
                    0 <= i2 < self.queue@.len() && run_prefix(
                        (#[trigger] self.queue@[i2]).2@.0,
                        self.queue@[i2].2@.1,
                        s2,
                        a2,
                    )) || (run_prefix(run@.0, run@.1, s2, a2) && (a2.len() == run@.1.len() || a2[
                    run@.1.len() as int
                ] >= 0)) by {
                    if !self.yruns@.contains((s2, a2)) {
                        let i0 = choose|i0: int|
                            0 <= i0 < pre_q.len() && run_prefix(
                                (#[trigger] pre_q[i0]).2@.0,
                                pre_q[i0].2@.1,
                                s2,
                                a2,
                            );
                        if i0 == 0 {
                            if a2.len() > run@.1.len() {
                                assert(a2[run@.1.len() as int] >= 0) by {
                                    assert(run_step_ok::<W>(fst@, s2, a2, run@.1.len() as int));
                                }
                            }
                        } else {
                            assert(self.queue@[i0 - 1] == pre_q[i0]);
                        }
                    }
                }
            }
            match self.expand_entry(fst, state_id, &path, Ghost(run@), Ghost(seen_pre)) {
                Ok(_) => {},
                Err(e) => {
                    return Err(e);
                },
            }
            let narcs = fst.states[state_id].arcs.len();
            let ghost q_after = self.queue@;
            let ghost yr_after = self.yruns@;
            proof {
                assert(narcs == fst@.states[state_id as int].arcs.len());
                assert forall|s2: Seq<StateId>, a2: Seq<int>|
                    #[trigger] is_accepting_run::<W>(fst@, s2, a2) implies yr_after.contains(
                    (s2, a2),
                ) || (exists|i2: int|
                    0 <= i2 < q_after.len() && run_prefix(
                        (#[trigger] q_after[i2]).2@.0,
                        q_after[i2].2@.1,
                        s2,
                        a2,
                    )) || (run_prefix(run@.0, run@.1, s2, a2) && (a2.len() == run@.1.len() || a2[
                    run@.1.len() as int
                ] >= narcs)) by {}
            }
            let is_final = fst.states[state_id].final_weight.is_some();
            if is_final {
                let ghost fwv = fst@.states[state_id as int].final_weight.unwrap();
                let fw = match &fst.states[state_id].final_weight {
                    Some(w) => w.sclone(),
                    None => W::one(),
                };
                match path.add_weight(&fw) {
                    Ok(_) => {},
                    Err(e) => {
                        proof {
                            assert(!W::times_ok(run_fold::<W>(fst@, run@.0, run@.1).weight, fwv));
                            assert(fst@.states[run@.0.last() as int].final_weight == Some(fwv));
                        }
                        return Err(FstError::Weight(e));
                    },
                }
                proof {
                    assert(run@.0.last() < fst@.states.len());
                    assert(fst@.states[run@.0.last() as int].final_weight == Some(fwv));
                    assert(path@ == (PathV {
                        ilabels: run_fold::<W>(fst@, run@.0, run@.1).ilabels,
                        olabels: run_fold::<W>(fst@, run@.0, run@.1).olabels,
                        weight: W::sv_times(run_fold::<W>(fst@, run@.0, run@.1).weight, fwv),
                    }));
                    assert(is_accepting_run::<W>(fst@, run@.0, run@.1));
                    assert(path@ == run_value::<W>(fst@, run@.0, run@.1));
                    assert(is_accepted_path::<W>(fst@, path@));
                }
                let ghost pre_emitted = self.emitted@;
                let ghost pre_yruns = self.yruns@;
                proof {
                    self.emitted@ = self.emitted@.push(path@);
                    self.yruns@ = self.yruns@.push(run@);
                }
                proof {
                    assert(self.emitted@[pre_emitted.len() as int] == path@);
                    assert(self.yruns@[pre_yruns.len() as int] == run@);
                    assert(self.seen@.contains(run@)) by {
                        assert(self.seen@[seen_pre.len() as int] == run@);
                    }
                    assert(self.inv());
                    assert forall|s2: Seq<StateId>, a2: Seq<int>|
                        #[trigger] is_accepting_run::<W>(fst@, s2, a2) implies self.yruns@.contains(
                        (s2, a2),
                    ) || (exists|i2: int|
                        0 <= i2 < self.queue@.len() && run_prefix(
                            (#[trigger] self.queue@[i2]).2@.0,
                            self.queue@[i2].2@.1,
                            s2,
                            a2,
                        )) by {
                        if pre_yruns.contains((s2, a2)) {
                            lemma_push_contains_run(pre_yruns, run@, (s2, a2));
                        } else if exists|i2: int|
                            0 <= i2 < q_after.len() && run_prefix(
                                (#[trigger] q_after[i2]).2@.0,
                                q_after[i2].2@.1,
                                s2,
                                a2,
                            ) {
                            let i2 = choose|i2: int|
                                0 <= i2 < q_after.len() && run_prefix(
                                    (#[trigger] q_after[i2]).2@.0,
                                    q_after[i2].2@.1,
                                    s2,
                                    a2,
                                );
                            assert(self.queue@ == q_after);
                            assert(self.queue@[i2] == q_after[i2]);
                        } else {
                            assert(yr_after == pre_yruns);
                            assert(run_prefix(run@.0, run@.1, s2, a2) && (a2.len() == run@.1.len()
                                || a2[run@.1.len() as int] >= narcs));
                            if a2.len() == run@.1.len() {
                                assert(s2.len() == a2.len() + 1);
                                assert(s2 =~= run@.0);
                                assert(a2 =~= run@.1);
                                assert((s2, a2) =~~= run@);
                                assert(self.yruns@.contains((s2, a2))) by {
                                    assert(self.yruns@[pre_yruns.len() as int] == (s2, a2));
                                }
                            } else {
                                assert(a2.len() > run@.1.len());
                                let k = run@.1.len() as int;
                                assert(run_step_ok::<W>(fst@, s2, a2, k));
                                assert(s2.take(k + 1) == run@.0);
                                assert(s2.take(k + 1)[k] == s2[k]);
                                assert(s2[k] == run@.0.last());
                                assert(a2[k] < fst@.states[state_id as int].arcs.len());
                                assert(false);
                            }
                        }
                    }
                    assert(self.covers());
                }
                return Ok(Some(path));
            }
            proof {
                // a pending path at a non-final state is no accepting run
                assert(fst@.states[state_id as int].final_weight is None) by {
                    assert(fst@.states[state_id as int] == fst.states@[state_id as int]@);
                }
                assert forall|s2: Seq<StateId>, a2: Seq<int>|
                    #[trigger] is_accepting_run::<W>(fst@, s2, a2) implies self.yruns@.contains(
                    (s2, a2),
                ) || (exists|i2: int|
                    0 <= i2 < self.queue@.len() && run_prefix(
                        (#[trigger] self.queue@[i2]).2@.0,
                        self.queue@[i2].2@.1,
                        s2,
                        a2,
                    )) by {
                    if !self.yruns@.contains((s2, a2)) && !(exists|i2: int|
                        0 <= i2 < self.queue@.len() && run_prefix(
                            (#[trigger] self.queue@[i2]).2@.0,
                            self.queue@[i2].2@.1,
                            s2,
                            a2,
                        )) {
                        assert(self.queue@ == q_after);
                        assert(self.yruns@ == yr_after);
                        assert(!(exists|i2: int|
                            0 <= i2 < q_after.len() && run_prefix(
                                (#[trigger] q_after[i2]).2@.0,
                                q_after[i2].2@.1,
                                s2,
                                a2,
                            ))) by {
                            if exists|i2: int|
                                0 <= i2 < q_after.len() && run_prefix(
                                    (#[trigger] q_after[i2]).2@.0,
                                    q_after[i2].2@.1,
                                    s2,
                                    a2,
                                ) {
                                let i2 = choose|i2: int|
                                    0 <= i2 < q_after.len() && run_prefix(
                                        (#[trigger] q_after[i2]).2@.0,
                                        q_after[i2].2@.1,
                                        s2,
                                        a2,
                                    );
                                assert(self.queue@[i2] == q_after[i2]);
                            }
                        }
                        assert(run_prefix(run@.0, run@.1, s2, a2) && (a2.len() == run@.1.len()
                            || a2[run@.1.len() as int] >= narcs));
                        if a2.len() == run@.1.len() {
                            assert(s2.len() == a2.len() + 1);
                            assert(s2 =~= run@.0);
                            assert(s2.last() == state_id);
                            assert(false);
                        } else {
                            assert(a2.len() > run@.1.len());
                            let k = run@.1.len() as int;
                            assert(run_step_ok::<W>(fst@, s2, a2, k));
                            assert(s2.take(k + 1) == run@.0);
                            assert(s2.take(k + 1)[k] == s2[k]);
                            assert(s2[k] == run@.0.last());
                            assert(a2[k] < fst@.states[state_id as int].arcs.len());
                            assert(false);
                        }
                    }
                }
                assert(self.covers());
            }
        }
        Ok(None)
    }

    /// Law: an exhausted iterator has yielded every accepted path of the
    /// FST it enumerates.
    pub proof fn lemma_exhausted_complete(&self, p: PathV<<W as View>::V>)
        requires
            self.inv(),
            self.covers(),
            self.exhausted(),
            is_accepted_path::<W>(self.fst_view(), p),
        ensures
            self.yielded().contains(p),
    {
        let f = self.fst_view();
        let (states, arcidx): (Seq<StateId>, Seq<int>) = choose|
            states: Seq<StateId>,
            arcidx: Seq<int>,
        |
            {
                let body = #[trigger] run_fold::<W>(f, states, arcidx);
                &&& is_run::<W>(f, states, arcidx)
                &&& run_ok::<W>(f, states, arcidx)
                &&& (f.states[states.last() as int].final_weight matches Some(fw) && W::times_ok(
                    body.weight,
                    fw,
                ) && p == (PathV {
                    ilabels: body.ilabels,
                    olabels: body.olabels,
                    weight: W::sv_times(body.weight, fw),
                }))
            };
        assert(is_accepting_run::<W>(f, states, arcidx));
        assert(p == run_value::<W>(f, states, arcidx));
        assert(self.emitted@.contains(run_value::<W>(self.snapshot@, states, arcidx)));
    }

    /// Law: an exhausted iterator has examined every accepting run: each
    /// one appears among the yielded runs.
    pub proof fn lemma_exhausted_complete_runs(&self, states: Seq<StateId>, arcidx: Seq<int>)
        requires
            self.inv(),
            self.covers(),
            self.exhausted(),
            is_accepting_run::<W>(self.fst_view(), states, arcidx),
        ensures
            self.yielded_runs().contains((states, arcidx)),
    {
    }

    /// The yield bookkeeping: as many runs as paths, every yielded run is
    /// an accepting run whose value is the yielded path, and no run is
    /// yielded twice.
    pub proof fn lemma_yield_bookkeeping(&self)
        requires
            self.inv(),
        ensures
            self.yielded_runs().len() == self.yielded().len(),
            forall|k: int|
                0 <= k < self.yielded_runs().len() ==> is_accepting_run::<W>(
                    self.fst_view(),
                    (#[trigger] self.yielded_runs()[k]).0,
                    self.yielded_runs()[k].1,
                ) && self.yielded()[k] == run_value::<W>(
                    self.fst_view(),
                    self.yielded_runs()[k].0,
                    self.yielded_runs()[k].1,
                ),
            forall|k1: int, k2: int|
                0 <= k1 < k2 < self.yielded_runs().len() ==> #[trigger] self.yielded_runs()[k1]
                    != #[trigger] self.yielded_runs()[k2],
    {
    }
}

/// Types whose accepted paths can be enumerated.
pub trait PathsIterator<W: Semiring>: Sized {
    /// The view of the enumerated FST.
    spec fn fst_view_of(&self) -> FstV<<W as View>::V>;

    /// Well-formedness required before enumerating.
    spec fn paths_wf(&self) -> bool;

    /// An iterator over the paths this FST accepts.
    fn paths_iter(&self) -> (r: StructPathsIterator<W>)
        requires
            self.paths_wf(),
        ensures
            r.inv(),
            r.covers(),
            r.fst_view() == self.fst_view_of(),
            r.yielded() == Seq::<PathV<<W as View>::V>>::empty(),
    ;
}

impl<W: Semiring> PathsIterator<W> for VectorFst<W> {
    open spec fn fst_view_of(&self) -> FstV<<W as View>::V> {
        self@
    }

    open spec fn paths_wf(&self) -> bool {
        self@.wf()
    }

    fn paths_iter(&self) -> (r: StructPathsIterator<W>) {
        StructPathsIterator::new(self)
    }
}

} // verus!
