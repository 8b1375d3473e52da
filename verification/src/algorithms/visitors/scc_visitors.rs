//! Tarjan-style strongly-connected-components visitor.
//!
//! The visitor is driven by the depth-first traversal engine
//! (`crate::algorithms::dfs_visit`): the engine discovers states, classifies
//! each arc as tree, back or forward/cross, and reports state completion;
//! the visitor updates its discovery numbers, lowlinks, SCC stack, and the
//! access / coaccess marks from those events.

use vstd::prelude::*;

use crate::arc::Arc;
use crate::fst_impls::vector_fst::VectorFst;
use crate::semirings::semiring::Semiring;
use crate::{StateId, NO_STATE_ID};

verus! {

/// Number of entries of a discovery vector that are assigned (not `-1`).
pub open spec fn count_assigned(s: Seq<i32>) -> int
    decreases s.len(),
{
    if s.len() == 0 {
        0
    } else {
        count_assigned(s.drop_last()) + if s.last() == -1i32 {
            0int
        } else {
            1int
        }
    }
}

/// The assigned count never exceeds the length.
pub proof fn lemma_count_assigned_le(s: Seq<i32>)
    ensures
        0 <= count_assigned(s) <= s.len(),
    decreases s.len(),
{
    if s.len() > 0 {
        lemma_count_assigned_le(s.drop_last());
    }
}

/// A vector with an unassigned entry has an assigned count below its
/// length.
pub proof fn lemma_count_assigned_lt(s: Seq<i32>, i: int)
    requires
        0 <= i < s.len(),
        s[i] == -1i32,
    ensures
        count_assigned(s) < s.len(),
    decreases s.len(),
{
    if i == s.len() - 1 {
        lemma_count_assigned_le(s.drop_last());
    } else {
        lemma_count_assigned_lt(s.drop_last(), i);
        lemma_count_assigned_le(s);
        assert(s.drop_last()[i] == s[i]);
    }
}

/// Assigning an unassigned entry increments the assigned count.
pub proof fn lemma_count_assigned_update(s: Seq<i32>, i: int, v: i32)
    requires
        0 <= i < s.len(),
        s[i] == -1i32,
        v != -1i32,
    ensures
        count_assigned(s.update(i, v)) == count_assigned(s) + 1,
    decreases s.len(),
{
    if i == s.len() - 1 {
        assert(s.update(i, v).drop_last() =~= s.drop_last());
    } else {
        assert(s.update(i, v).drop_last() =~= s.drop_last().update(i, v));
        lemma_count_assigned_update(s.drop_last(), i, v);
    }
}

/// The position of the topmost occurrence of a state on the SCC stack, or
/// `-1` when the state is not on the stack.
pub open spec fn stack_pos(stack: Seq<StateId>, s: StateId) -> int
    decreases stack.len(),
{
    if stack.len() == 0 {
        -1
    } else if stack.last() == s {
        stack.len() - 1
    } else {
        stack_pos(stack.drop_last(), s)
    }
}

/// Characterization of `stack_pos`.
pub proof fn lemma_stack_pos(stack: Seq<StateId>, s: StateId)
    ensures
        stack.contains(s) ==> 0 <= stack_pos(stack, s) < stack.len() && stack[stack_pos(stack, s)]
            == s && (forall|k: int| stack_pos(stack, s) < k < stack.len() ==> stack[k] != s),
        !stack.contains(s) ==> stack_pos(stack, s) == -1,
    decreases stack.len(),
{
    if stack.len() > 0 {
        lemma_stack_pos(stack.drop_last(), s);
        if stack.last() != s {
            if stack.contains(s) {
                let k = choose|k: int| 0 <= k < stack.len() && stack[k] == s;
                assert(k < stack.len() - 1);
                assert(stack.drop_last()[k] == s);
                assert(stack.drop_last().contains(s));
                assert(forall|k2: int|
                    stack_pos(stack, s) < k2 < stack.len() - 1 ==> stack.drop_last()[k2] == stack[k2]);
            } else {
                if stack.drop_last().contains(s) {
                    let k = choose|k: int|
                        0 <= k < stack.drop_last().len() && stack.drop_last()[k] == s;
                    assert(stack[k] == s);
                    assert(stack.contains(s));
                }
            }
        } else {
            assert(stack[stack.len() - 1] == s);
            assert(stack.contains(s));
        }
    }
}

/// Disjunction of the coaccess marks of the stack entries at or above
/// position `i`.
pub open spec fn or_from(ca: Seq<bool>, stack: Seq<StateId>, i: int) -> bool
    decreases stack.len() - i,
{
    if 0 <= i < stack.len() {
        ca[stack[i] as int] || or_from(ca, stack, i + 1)
    } else {
        false
    }
}


/// Membership in a suffix, unfolded by one element.
pub proof fn lemma_skip_unfold(stack: Seq<StateId>, m: int, x: StateId)
    requires
        0 <= m < stack.len(),
    ensures
        stack.skip(m).contains(x) <==> (stack[m] == x || stack.skip(m + 1).contains(x)),
{
    if stack.skip(m).contains(x) {
        let k = choose|k: int| 0 <= k < stack.skip(m).len() && stack.skip(m)[k] == x;
        if k == 0 {
            assert(stack[m] == x);
        } else {
            assert(stack.skip(m + 1)[k - 1] == x);
            assert(stack.skip(m + 1).contains(x));
        }
    }
    if stack[m] == x {
        assert(stack.skip(m)[0] == x);
        assert(stack.skip(m).contains(x));
    }
    if stack.skip(m + 1).contains(x) {
        let k = choose|k: int|
            0 <= k < stack.skip(m + 1).len() && #[trigger] stack.skip(m + 1)[k] == x;
        assert(stack.skip(m)[k + 1] == x);
        assert(stack.skip(m).contains(x));
    }
}

/// Membership in a sequence split at `j`.
pub proof fn lemma_take_skip_contains(stack: Seq<StateId>, j: int)
    requires
        0 <= j <= stack.len(),
    ensures
        forall|x: StateId|
            stack.contains(x) <==> (stack.take(j).contains(x) || stack.skip(j).contains(x)),
{
    assert forall|x: StateId|
        stack.contains(x) <==> (stack.take(j).contains(x) || stack.skip(j).contains(x)) by {
        if stack.contains(x) {
            let k = choose|k: int| 0 <= k < stack.len() && stack[k] == x;
            if k < j {
                assert(stack.take(j)[k] == x);
                assert(stack.take(j).contains(x));
            } else {
                assert(stack.skip(j)[k - j] == x);
                assert(stack.skip(j).contains(x));
            }
        }
        if stack.take(j).contains(x) {
            let k = choose|k: int| 0 <= k < stack.take(j).len() && stack.take(j)[k] == x;
            assert(stack[k] == x);
            assert(stack.contains(x));
        }
        if stack.skip(j).contains(x) {
            let k = choose|k: int| 0 <= k < stack.skip(j).len() && stack.skip(j)[k] == x;
            assert(stack[k + j] == x);
            assert(stack.contains(x));
        }
    }
}

/// Computes, for every state of an FST, Tarjan-style discovery data, and on
/// request the strongly-connected-component identifiers and the access
/// (reachable from the start) and coaccess (reaches a final state) marks.
///
/// All bookkeeping vectors are exposed so that the traversal engine and the
/// verified callers can state exact contracts about them; `-1` marks an
/// unassigned entry.
pub struct SccVisitor {
    /// SCC identifier of every state, when requested.
    pub scc: Option<Vec<i32>>,
    /// Access mark of every state, when requested.
    pub access: Option<Vec<bool>>,
    /// Coaccess mark of every state.
    pub coaccess: Vec<bool>,
    /// The FST's start state, or `NO_STATE_ID`.
    pub start: i32,
    /// Number of states discovered so far.
    pub nstates: usize,
    /// Discovery index of every state.
    pub dfnumber: Vec<i32>,
    /// Lowest discovery index reachable as Tarjan's lowlink.
    pub lowlink: Vec<i32>,
    /// Whether a state currently sits on the SCC stack.
    pub onstack: Vec<bool>,
    /// The SCC stack: discovered states whose component is not yet popped.
    pub scc_stack: Vec<StateId>,
    /// Number of components popped so far.
    pub nscc: i32,
}

impl SccVisitor {
    /// Capacity of this visitor: the number of states it was built for.
    pub open spec fn n(&self) -> nat {
        self.dfnumber@.len()
    }

    /// Internal invariant, preserved by every callback.
    pub open spec fn inv(&self) -> bool {
        &&& self.lowlink@.len() == self.n()
        &&& self.onstack@.len() == self.n()
        &&& self.coaccess@.len() == self.n()
        &&& (self.scc matches Some(v) ==> v@.len() == self.n())
        &&& (self.access matches Some(v) ==> v@.len() == self.n())
        &&& self.n() <= i32::MAX as nat
        &&& self.nstates <= self.n()
        &&& self.nstates as int == count_assigned(self.dfnumber@)
        &&& 0 <= self.nscc
        &&& self.nscc + self.scc_stack@.len() <= self.nstates as int
        &&& (forall|t: int|
            0 <= t < self.n() ==> -1 <= #[trigger] self.dfnumber@[t] < self.nstates)
        &&& (forall|t: int| 0 <= t < self.n() ==> -1 <= #[trigger] self.lowlink@[t] < self.nstates)
        &&& (forall|j: int|
            0 <= j < self.scc_stack@.len() ==> #[trigger] self.scc_stack@[j] < self.n())
        &&& (forall|j: int|
            0 <= j < self.scc_stack@.len() ==> self.dfnumber@[#[trigger] self.scc_stack@[j] as int]
                >= 0)
        &&& (forall|j1: int, j2: int|
            0 <= j1 < j2 < self.scc_stack@.len() ==> self.dfnumber@[#[trigger] self.scc_stack@[j1] as int]
                < self.dfnumber@[#[trigger] self.scc_stack@[j2] as int])
        &&& (forall|t: int|
            0 <= t < self.n() ==> (#[trigger] self.onstack@[t] <==> self.scc_stack@.contains(
                t as StateId,
            )))
        &&& (self.scc matches Some(v) ==> (forall|t: int|
            0 <= t < self.n() ==> (-1 <= #[trigger] v@[t] < self.nscc) && (v@[t] >= 0 <==> (
            self.dfnumber@[t] >= 0 && !self.onstack@[t]))))
    }

    /// A freshly constructed visitor: nothing discovered yet.
    pub open spec fn fresh(&self) -> bool {
        &&& self.nstates == 0
        &&& self.scc_stack@.len() == 0
        &&& self.nscc == 0
        &&& (forall|t: int| 0 <= t < self.n() ==> #[trigger] self.dfnumber@[t] == -1)
        &&& (forall|t: int| 0 <= t < self.n() ==> #[trigger] self.lowlink@[t] == -1)
        &&& (forall|t: int| 0 <= t < self.n() ==> !(#[trigger] self.onstack@[t]))
        &&& (forall|t: int| 0 <= t < self.n() ==> !(#[trigger] self.coaccess@[t]))
        &&& (self.scc matches Some(v) ==> (forall|t: int|
            0 <= t < self.n() ==> #[trigger] v@[t] == -1))
        &&& (self.access matches Some(v) ==> (forall|t: int|
            0 <= t < self.n() ==> !(#[trigger] v@[t])))
    }

    /// Builds a fresh visitor for `fst`; `compute_scc` and `compute_access`
    /// choose whether SCC identifiers and access marks are recorded.
    pub fn new<W: Semiring>(fst: &VectorFst<W>, compute_scc: bool, compute_access: bool) -> (r:
        Self)
        requires
            fst@.wf(),
            fst@.states.len() <= i32::MAX as nat,
        ensures
            r.inv(),
            r.fresh(),
            r.n() == fst@.states.len(),
            r.scc is Some <==> compute_scc,
            r.access is Some <==> compute_access,
            r.start as int == (match fst@.start {
                Some(st) => st as int,
                None => NO_STATE_ID as int,
            }),
    {
        let n = fst.num_states();
        let r = SccVisitor {
            scc: if compute_scc {
                Some(filled_i32(n, -1))
            } else {
                None
            },
            access: if compute_access {
                Some(filled_bool(n, false))
            } else {
                None
            },
            coaccess: filled_bool(n, false),
            start: match fst.start() {
                Some(v) => v as i32,
                None => NO_STATE_ID,
            },
            nstates: 0,
            dfnumber: filled_i32(n, -1),
            lowlink: filled_i32(n, -1),
            onstack: filled_bool(n, false),
            scc_stack: Vec::new(),
            nscc: 0,
        };
        proof {
            lemma_all_unassigned(r.dfnumber@);
        }
        r
    }

    /// A state has been discovered: push it, number it, and mark its access
    /// when the root of this traversal is the start state.
    pub fn init_state(&mut self, s: StateId, root: StateId) -> (c: bool)
        requires
            old(self).inv(),
            s < old(self).n(),
            root < old(self).n(),
            old(self).dfnumber@[s as int] == -1,
        ensures
            c == true,
            final(self).inv(),
            final(self).n() == old(self).n(),
            final(self).dfnumber@ == old(self).dfnumber@.update(s as int, old(self).nstates as i32),
            final(self).lowlink@ == old(self).lowlink@.update(s as int, old(self).nstates as i32),
            final(self).onstack@ == old(self).onstack@.update(s as int, true),
            final(self).scc_stack@ == old(self).scc_stack@.push(s),
            final(self).nstates == old(self).nstates + 1,
            (match (final(self).access, old(self).access) {
                (Some(a1), Some(a0)) => a1@ == a0@.update(s as int, root as i32 == old(self).start),
                (None, None) => true,
                _ => false,
            }),
            final(self).coaccess@ == old(self).coaccess@,
            final(self).scc == old(self).scc,
            final(self).nscc == old(self).nscc,
            final(self).start == old(self).start,
    {
        proof {
            lemma_count_assigned_lt(self.dfnumber@, s as int);
            lemma_count_assigned_update(self.dfnumber@, s as int, self.nstates as i32);
            assert(!self.scc_stack@.contains(s));
        }
        self.scc_stack.push(s);
        let d = self.nstates as i32;
        self.dfnumber[s] = d;
        self.lowlink[s] = d;
        self.onstack[s] = true;
        match &mut self.access {
            Some(access) => {
                access[s] = root as i32 == self.start;
            },
            None => {},
        }
        self.nstates = self.nstates + 1;
        proof {
            assert forall|t: int|
                0 <= t < self.n() implies (#[trigger] self.onstack@[t]
                <==> self.scc_stack@.contains(t as StateId)) by {
                if t == s as int {
                    assert(self.scc_stack@.last() == s);
                } else {
                    if self.scc_stack@.contains(t as StateId) {
                        let j = choose|j: int|
                            0 <= j < self.scc_stack@.len() && self.scc_stack@[j] == t as StateId;
                        assert(j < self.scc_stack@.len() - 1);
                        assert(old(self).scc_stack@[j] == t as StateId);
                        assert(old(self).scc_stack@.contains(t as StateId));
                    } else {
                        if old(self).scc_stack@.contains(t as StateId) {
                            let j = choose|j: int|
                                0 <= j < old(self).scc_stack@.len() && old(self).scc_stack@[j]
                                    == t as StateId;
                            assert(self.scc_stack@[j] == t as StateId);
                        }
                    }
                }
            }
        }
        true
    }

    /// A tree arc: nothing to record.
    pub fn tree_arc<W: Semiring>(&mut self, s: StateId, arc: &Arc<W>) -> (c: bool)
        ensures
            c == true,
            *final(self) == *old(self),
    {
        true
    }

    /// A back arc from `s`: lower `s`'s lowlink to the target's discovery
    /// number and propagate the target's coaccess mark.
    pub fn back_arc<W: Semiring>(&mut self, s: StateId, arc: &Arc<W>) -> (c: bool)
        requires
            old(self).inv(),
            s < old(self).n(),
            arc@.nextstate < old(self).n(),
        ensures
            c == true,
            final(self).inv(),
            final(self).n() == old(self).n(),
            ({
                let t = arc@.nextstate as int;
                &&& final(self).lowlink@ == (if old(self).dfnumber@[t] < old(self).lowlink@[s as int] {
                    old(self).lowlink@.update(s as int, old(self).dfnumber@[t])
                } else {
                    old(self).lowlink@
                })
                &&& final(self).coaccess@ == (if old(self).coaccess@[t] {
                    old(self).coaccess@.update(s as int, true)
                } else {
                    old(self).coaccess@
                })
            }),
            final(self).dfnumber@ == old(self).dfnumber@,
            final(self).onstack@ == old(self).onstack@,
            final(self).scc_stack@ == old(self).scc_stack@,
            final(self).nstates == old(self).nstates,
            final(self).scc == old(self).scc,
            final(self).access == old(self).access,
            final(self).nscc == old(self).nscc,
            final(self).start == old(self).start,
    {
        let t = arc.nextstate;
        if self.dfnumber[t] < self.lowlink[s] {
            self.lowlink[s] = self.dfnumber[t];
        }
        if self.coaccess[t] {
            self.coaccess[s] = true;
        }
        true
    }

    /// A forward or cross arc from `s`: lower `s`'s lowlink only towards an
    /// earlier-discovered target still on the stack, and propagate the
    /// target's coaccess mark.
    pub fn forward_or_cross_arc<W: Semiring>(&mut self, s: StateId, arc: &Arc<W>) -> (c: bool)
        requires
            old(self).inv(),
            s < old(self).n(),
            arc@.nextstate < old(self).n(),
        ensures
            c == true,
            final(self).inv(),
            final(self).n() == old(self).n(),
            ({
                let t = arc@.nextstate as int;
                &&& final(self).lowlink@ == (if old(self).dfnumber@[t] < old(self).dfnumber@[s as int]
                    && old(self).onstack@[t] && old(self).dfnumber@[t] < old(self).lowlink@[s as int] {
                    old(self).lowlink@.update(s as int, old(self).dfnumber@[t])
                } else {
                    old(self).lowlink@
                })
                &&& final(self).coaccess@ == (if old(self).coaccess@[t] {
                    old(self).coaccess@.update(s as int, true)
                } else {
                    old(self).coaccess@
                })
            }),
            final(self).dfnumber@ == old(self).dfnumber@,
            final(self).onstack@ == old(self).onstack@,
            final(self).scc_stack@ == old(self).scc_stack@,
            final(self).nstates == old(self).nstates,
            final(self).scc == old(self).scc,
            final(self).access == old(self).access,
            final(self).nscc == old(self).nscc,
            final(self).start == old(self).start,
    {
        let t = arc.nextstate;
        if self.dfnumber[t] < self.dfnumber[s] && self.onstack[t] && self.dfnumber[t]
            < self.lowlink[s] {
            self.lowlink[s] = self.dfnumber[t];
        }
        if self.coaccess[t] {
            self.coaccess[s] = true;
        }
        true
    }


    /// A state has no unexplored arcs left: record its final mark, pop its
    /// component when it is the component's root, and propagate coaccess
    /// and lowlink to its tree parent.
    ///
    /// In the root case the stack is cut at `s`'s position `j`: every state
    /// above and including `j` leaves the stack, is assigned the current
    /// component number, and inherits the component's common coaccess mark
    /// `or_from(.., j)`.
    pub fn finish_state<W: Semiring>(
        &mut self,
        fst: &VectorFst<W>,
        s: StateId,
        parent: Option<StateId>,
    )
        requires
            old(self).inv(),
            s < old(self).n(),
            fst@.states.len() == old(self).n(),
            parent matches Some(p) ==> p < old(self).n(),
            old(self).onstack@[s as int],
        ensures
            final(self).inv(),
            final(self).n() == old(self).n(),
            final(self).dfnumber@ == old(self).dfnumber@,
            final(self).nstates == old(self).nstates,
            final(self).access == old(self).access,
            final(self).start == old(self).start,
            ({
                let pre = *old(self);
                let n = pre.n() as int;
                let isf = fst@.states[s as int].final_weight is Some;
                let ca1 = if isf {
                    pre.coaccess@.update(s as int, true)
                } else {
                    pre.coaccess@
                };
                let root_case = pre.dfnumber@[s as int] == pre.lowlink@[s as int];
                let j = stack_pos(pre.scc_stack@, s);
                let sccco = or_from(ca1, pre.scc_stack@, j);
                let popped = pre.scc_stack@.skip(j);
                let stack2 = if root_case {
                    pre.scc_stack@.take(j)
                } else {
                    pre.scc_stack@
                };
                let ca2 = Seq::new(
                    ca1.len(),
                    |t: int|
                        if root_case {
                            ca1[t] || (sccco && popped.contains(t as StateId))
                        } else {
                            ca1[t]
                        },
                );
                let ca3 = match parent {
                    Some(p) => if ca2[s as int] {
                        ca2.update(p as int, true)
                    } else {
                        ca2
                    },
                    None => ca2,
                };
                let ll3 = match parent {
                    Some(p) => if pre.lowlink@[s as int] < pre.lowlink@[p as int] {
                        pre.lowlink@.update(p as int, pre.lowlink@[s as int])
                    } else {
                        pre.lowlink@
                    },
                    None => pre.lowlink@,
                };
                &&& final(self).scc_stack@ == stack2
                &&& final(self).coaccess@ == ca3
                &&& final(self).lowlink@ == ll3
                &&& final(self).nscc == pre.nscc + (if root_case {
                    1int
                } else {
                    0int
                })
                &&& (forall|t: int|
                    0 <= t < n ==> (#[trigger] final(self).onstack@[t] == (pre.onstack@[t] && !(
                    root_case && popped.contains(t as StateId)))))
                &&& (match (final(self).scc, pre.scc) {
                    (Some(v1), Some(v0)) => forall|t: int|
                        0 <= t < n ==> #[trigger] v1@[t] == (if root_case && popped.contains(
                            t as StateId,
                        ) {
                            pre.nscc
                        } else {
                            v0@[t]
                        }),
                    (None, None) => true,
                    _ => false,
                })
            }),
    {
        let ghost pre = *old(self);
        let ghost n = pre.n() as int;
        proof {
            lemma_stack_pos(pre.scc_stack@, s);
        }
        let ghost j = stack_pos(pre.scc_stack@, s);
        if fst.is_final(s) {
            self.coaccess[s] = true;
        }
        let ghost ca1 = self.coaccess@;
        let ghost root_case = pre.dfnumber@[s as int] == pre.lowlink@[s as int];
        let ghost sccco = or_from(ca1, pre.scc_stack@, j);
        let ghost popped = pre.scc_stack@.skip(j);
        if self.dfnumber[s] == self.lowlink[s] {
            let ghost mid1 = *self;
            // Scan downward from the top of the stack to s, collecting the
            // component's common coaccess mark.
            let mut scc_coaccess = false;
            let mut i: usize = self.scc_stack.len();
            loop
                invariant_except_break
                    *self == mid1,
                    mid1.inv(),
                    mid1.scc_stack@ == pre.scc_stack@,
                    mid1.coaccess@ == ca1,
                    0 <= j < i <= pre.scc_stack@.len(),
                    pre.scc_stack@[j] == s,
                    forall|k: int| j < k < pre.scc_stack@.len() ==> pre.scc_stack@[k] != s,
                    scc_coaccess == or_from(ca1, pre.scc_stack@, i as int),
                    sccco == or_from(ca1, pre.scc_stack@, j),
                ensures
                    *self == mid1,
                    scc_coaccess == sccco,
                decreases i,
            {
                i = i - 1;
                let t = self.scc_stack[i];
                if self.coaccess[t] {
                    scc_coaccess = true;
                }
                proof {
                    assert(or_from(ca1, pre.scc_stack@, i as int) == (ca1[pre.scc_stack@[i as int] as int]
                        || or_from(ca1, pre.scc_stack@, i as int + 1)));
                }
                if t == s {
                    proof {
                        assert(i as int == j);
                    }
                    break;
                }
                proof {
                    assert(i as int != j);
                }
            }
            // Pop the component: assign its number, propagate its coaccess
            // mark, and clear the on-stack marks.
            let ghost nscc0 = self.nscc;
            loop
                invariant_except_break
                    n == pre.n() as int,
                    popped == pre.scc_stack@.skip(j),
                    sccco == or_from(ca1, pre.scc_stack@, j),
                    self.n() == pre.n(),
                    self.nscc == nscc0,
                    self.nstates == pre.nstates,
                    self.dfnumber@ == pre.dfnumber@,
                    self.lowlink@ == pre.lowlink@,
                    self.access == pre.access,
                    self.start == pre.start,
                    self.onstack@.len() == pre.n(),
                    self.coaccess@.len() == pre.n(),
                    (self.scc matches Some(v) ==> v@.len() == pre.n()),
                    (pre.scc is Some <==> self.scc is Some),
                    scc_coaccess == sccco,
                    pre.inv(),
                    0 <= j < pre.scc_stack@.len(),
                    pre.scc_stack@[j] == s,
                    pre.coaccess@.len() == pre.n(),
                    ca1.len() == pre.n(),
                    ca1 == (if fst@.states[s as int].final_weight is Some {
                        pre.coaccess@.update(s as int, true)
                    } else {
                        pre.coaccess@
                    }),
                    j < self.scc_stack@.len() <= pre.scc_stack@.len(),
                    self.scc_stack@ == pre.scc_stack@.take(self.scc_stack@.len() as int),
                    forall|t: int|
                        0 <= t < n ==> (#[trigger] self.onstack@[t] == (pre.onstack@[t]
                            && !pre.scc_stack@.skip(self.scc_stack@.len() as int).contains(
                            t as StateId,
                        ))),
                    forall|t: int|
                        0 <= t < n ==> (#[trigger] self.coaccess@[t] == (ca1[t] || (sccco
                            && pre.scc_stack@.skip(self.scc_stack@.len() as int).contains(
                            t as StateId,
                        )))),
                    (match (self.scc, pre.scc) {
                        (Some(v1), Some(v0)) => forall|t: int|
                            0 <= t < n ==> #[trigger] v1@[t] == (if pre.scc_stack@.skip(
                                self.scc_stack@.len() as int,
                            ).contains(t as StateId) {
                                nscc0 as int
                            } else {
                                v0@[t] as int
                            }),
                        (None, None) => true,
                        _ => false,
                    }),
                ensures
                    n == pre.n() as int,
                    self.n() == pre.n(),
                    self.nscc == nscc0,
                    self.nstates == pre.nstates,
                    self.dfnumber@ == pre.dfnumber@,
                    self.lowlink@ == pre.lowlink@,
                    self.access == pre.access,
                    self.start == pre.start,
                    self.onstack@.len() == pre.n(),
                    self.coaccess@.len() == pre.n(),
                    (self.scc matches Some(v) ==> v@.len() == pre.n()),
                    (pre.scc is Some <==> self.scc is Some),
                    self.scc_stack@ == pre.scc_stack@.take(j),
                    forall|t: int|
                        0 <= t < n ==> (#[trigger] self.onstack@[t] == (pre.onstack@[t]
                            && !popped.contains(t as StateId))),
                    forall|t: int|
                        0 <= t < n ==> (#[trigger] self.coaccess@[t] == (ca1[t] || (sccco
                            && popped.contains(t as StateId)))),
                    (match (self.scc, pre.scc) {
                        (Some(v1), Some(v0)) => forall|t: int|
                            0 <= t < n ==> #[trigger] v1@[t] == (if popped.contains(t as StateId) {
                                nscc0 as int
                            } else {
                                v0@[t] as int
                            }),
                        (None, None) => true,
                        _ => false,
                    }),
                decreases self.scc_stack@.len(),
            {
                let ghost m = self.scc_stack@.len() as int;
                let ghost onstack_head = self.onstack@;
                let ghost coaccess_head = self.coaccess@;
                let ghost scc_head = self.scc;
                let last_index = self.scc_stack.len() - 1;
                let t = self.scc_stack[last_index];
                proof {
                    assert(pre.scc_stack@.take(m)[m - 1] == pre.scc_stack@[m - 1]);
                    assert(t == pre.scc_stack@[m - 1]);
                    assert(t < pre.n());
                }
                let nscc_now = self.nscc;
                match &mut self.scc {
                    Some(scc) => {
                        scc[t] = nscc_now;
                    },
                    None => {},
                }
                if scc_coaccess {
                    self.coaccess[t] = true;
                }
                self.onstack[t] = false;
                self.scc_stack.pop();
                proof {
                    assert(self.scc_stack@ =~= pre.scc_stack@.take(m - 1));
                    assert(pre.scc_stack@.skip((m - 1) + 1) =~= pre.scc_stack@.skip(m));
                    assert(pre.scc_stack@.skip(m - 1)[0] == t);
                    assert(pre.scc_stack@.skip(m - 1).contains(t));
                    assert(self.onstack@ == onstack_head.update(t as int, false));
                    assert(self.coaccess@ == (if scc_coaccess {
                        coaccess_head.update(t as int, true)
                    } else {
                        coaccess_head
                    }));
                    assert forall|x: int|
                        0 <= x < n implies #[trigger] self.onstack@[x] == (pre.onstack@[x]
                        && !pre.scc_stack@.skip(m - 1).contains(x as StateId)) by {
                        assert(onstack_head[x] == (pre.onstack@[x] && !pre.scc_stack@.skip(
                            m,
                        ).contains(x as StateId)));
                        lemma_skip_unfold(pre.scc_stack@, m - 1, x as StateId);
                        if x != t as int {
                            assert(pre.scc_stack@.skip(m - 1).contains(x as StateId)
                                <==> pre.scc_stack@.skip(m).contains(x as StateId));
                        }
                    }
                    assert forall|x: int|
                        0 <= x < n implies #[trigger] self.coaccess@[x] == (ca1[x] || (sccco
                        && pre.scc_stack@.skip(m - 1).contains(x as StateId))) by {
                        assert(coaccess_head[x] == (ca1[x] || (sccco && pre.scc_stack@.skip(
                            m,
                        ).contains(x as StateId))));
                        lemma_skip_unfold(pre.scc_stack@, m - 1, x as StateId);
                        if x != t as int {
                            assert(pre.scc_stack@.skip(m - 1).contains(x as StateId)
                                <==> pre.scc_stack@.skip(m).contains(x as StateId));
                        }
                    }
                    if self.scc is Some {
                        let v1 = self.scc.unwrap();
                        let v0 = pre.scc.unwrap();
                        let vh = scc_head.unwrap();
                        assert(v1@ == vh@.update(t as int, nscc0));
                        assert forall|x: int|
                            0 <= x < n implies #[trigger] v1@[x] == (if pre.scc_stack@.skip(
                            m - 1,
                        ).contains(x as StateId) {
                            nscc0 as int
                        } else {
                            v0@[x] as int
                        }) by {
                            assert(vh@[x] == (if pre.scc_stack@.skip(m).contains(x as StateId) {
                                nscc0 as int
                            } else {
                                v0@[x] as int
                            }));
                            lemma_skip_unfold(pre.scc_stack@, m - 1, x as StateId);
                            if x != t as int {
                                assert(pre.scc_stack@.skip(m - 1).contains(x as StateId)
                                    <==> pre.scc_stack@.skip(m).contains(x as StateId));
                            }
                        }
                    }
                }
                if t == s {
                    proof {
                        assert(m - 1 == j);
                        assert(pre.scc_stack@.skip(m - 1) == popped);
                    }
                    break;
                }
                proof {
                    assert(m - 1 != j);
                    assert(j < m - 1);
                }
            }
            self.nscc = self.nscc + 1;
            proof {
                lemma_take_skip_contains(pre.scc_stack@, j);
                // The cut stack keeps strictly increasing discovery numbers.
                assert forall|t: int|
                    0 <= t < n implies (#[trigger] self.onstack@[t] <==> self.scc_stack@.contains(
                    t as StateId,
                )) by {
                    if self.onstack@[t] {
                        assert(pre.scc_stack@.contains(t as StateId));
                    }
                    if self.scc_stack@.contains(t as StateId) {
                        let k = choose|k: int|
                            0 <= k < self.scc_stack@.len() && self.scc_stack@[k] == t as StateId;
                        assert(pre.scc_stack@[k] == t as StateId);
                        assert(pre.scc_stack@.contains(t as StateId));
                        if popped.contains(t as StateId) {
                            let k2 = choose|k2: int|
                                0 <= k2 < popped.len() && popped[k2] == t as StateId;
                            assert(pre.scc_stack@[j + k2] == t as StateId);
                            let a1 = pre.scc_stack@[k] as int;
                            let a2 = pre.scc_stack@[j + k2] as int;
                            assert(pre.dfnumber@[a1] < pre.dfnumber@[a2]);
                            assert(false);
                        }
                    }
                }
            }
        }
        match parent {
            Some(p) => {
                if self.coaccess[s] {
                    self.coaccess[p] = true;
                }
                if self.lowlink[s] < self.lowlink[p] {
                    self.lowlink[p] = self.lowlink[s];
                }
            },
            None => {},
        }
        proof {
            assert(final(self).coaccess@.len() == pre.n());
            assert forall|t: int|
                0 <= t < n implies (#[trigger] final(self).onstack@[t]
                <==> final(self).scc_stack@.contains(t as StateId)) by {
                if !root_case {
                    assert(final(self).onstack@[t] == pre.onstack@[t]);
                    assert(final(self).scc_stack@ == pre.scc_stack@);
                }
            }
        }
    }

    /// The traversal is over: renumber the components so that a component
    /// with no arc into another component gets the smallest identifier.
    pub fn finish_visit(&mut self)
        requires
            old(self).inv(),
        ensures
            final(self).n() == old(self).n(),
            (match (final(self).scc, old(self).scc) {
                (Some(v1), Some(v0)) => v1@.len() == v0@.len() && (forall|t: int|
                    0 <= t < v0@.len() ==> #[trigger] v1@[t] == old(self).nscc - 1 - v0@[t]),
                (None, None) => true,
                _ => false,
            }),
            final(self).coaccess@ == old(self).coaccess@,
            final(self).access == old(self).access,
            final(self).dfnumber@ == old(self).dfnumber@,
            final(self).lowlink@ == old(self).lowlink@,
            final(self).onstack@ == old(self).onstack@,
            final(self).scc_stack@ == old(self).scc_stack@,
            final(self).nstates == old(self).nstates,
            final(self).nscc == old(self).nscc,
            final(self).start == old(self).start,
    {
        let nscc = self.nscc;
        match &mut self.scc {
            Some(scc) => {
                let ghost orig = scc@;
                let mut s: usize = 0;
                while s < scc.len()
                    invariant
                        scc@.len() == orig.len(),
                        s <= orig.len(),
                        0 <= nscc,
                        forall|t: int| 0 <= t < orig.len() ==> -1 <= #[trigger] orig[t] < nscc,
                        forall|t: int| 0 <= t < s ==> #[trigger] scc@[t] == nscc - 1 - orig[t],
                        forall|t: int| s <= t < orig.len() ==> #[trigger] scc@[t] == orig[t],
                    decreases orig.len() - s,
                {
                    scc[s] = nscc - 1 - scc[s];
                    s = s + 1;
                }
            },
            None => {},
        }
    }
}

/// A vector holding `n` copies of a boolean.
fn filled_bool(n: usize, value: bool) -> (r: Vec<bool>)
    ensures
        r@.len() == n,
        forall|t: int| 0 <= t < n ==> #[trigger] r@[t] == value,
{
    let mut r: Vec<bool> = Vec::new();
    let mut i: usize = 0;
    while i < n
        invariant
            r@.len() == i,
            i <= n,
            forall|t: int| 0 <= t < i ==> #[trigger] r@[t] == value,
        decreases n - i,
    {
        r.push(value);
        i = i + 1;
    }
    r
}

/// A vector holding `n` copies of a 32-bit integer.
fn filled_i32(n: usize, value: i32) -> (r: Vec<i32>)
    ensures
        r@.len() == n,
        forall|t: int| 0 <= t < n ==> #[trigger] r@[t] == value,
{
    let mut r: Vec<i32> = Vec::new();
    let mut i: usize = 0;
    while i < n
        invariant
            r@.len() == i,
            i <= n,
            forall|t: int| 0 <= t < i ==> #[trigger] r@[t] == value,
        decreases n - i,
    {
        r.push(value);
        i = i + 1;
    }
    r
}

/// A vector of unassigned entries has an assigned count of zero.
proof fn lemma_all_unassigned(s: Seq<i32>)
    requires
        forall|t: int| 0 <= t < s.len() ==> #[trigger] s[t] == -1i32,
    ensures
        count_assigned(s) == 0,
    decreases s.len(),
{
    if s.len() > 0 {
        lemma_all_unassigned(s.drop_last());
    }
}

} // verus!
