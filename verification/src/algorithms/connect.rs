//! Trimming: removal of the states that lie on no successful path.

use vstd::prelude::*;

use crate::algorithms::dfs_visit::{
    coaccessible_in, dfs_visit, has_arc_to, is_path_between, lemma_path_prefix,
    lemma_path_suffix, lemma_reachable_prepend, lemma_reachable_refl, lemma_reachable_trans,
    reachable_in,
};
use crate::fst_impls::vector_fst::{
    lemma_del_states_spec_congruent, lemma_del_states_spec_identity, lemma_del_states_spec_wf,
    lemma_num_kept_below_bounds, lemma_num_kept_below_injective, lemma_num_kept_below_strict,
    lemma_remap_arcs_contains, lemma_remap_arcs_elements, lemma_remap_states_index,
    lemma_remap_states_len, lemma_remap_states_surjective, num_kept_below, remap_arc, remap_arcs,
    FstV,
};
use crate::fst_traits::paths_iterator::{
    is_accepting_run, is_run, run_fold, run_ok, run_step_ok, run_value,
};
use crate::algorithms::visitors::scc_visitors::SccVisitor;
use crate::errors::FstError;
use crate::fst_impls::vector_fst::{del_states_spec, VectorFst};
use crate::semirings::semiring::Semiring;
use crate::{StateId, NO_STATE_ID};

verus! {

/// Membership in a sequence after a push.
proof fn lemma_push_contains(sq: Seq<StateId>, x: StateId, y: StateId)
    ensures
        sq.push(x).contains(y) <==> (sq.contains(y) || x == y),
{
    if sq.push(x).contains(y) {
        let k = choose|k: int| 0 <= k < sq.push(x).len() && sq.push(x)[k] == y;
        if k < sq.len() {
            assert(sq[k] == y);
            assert(sq.contains(y));
        }
    }
    if sq.contains(y) {
        let k = choose|k: int| 0 <= k < sq.len() && sq[k] == y;
        assert(sq.push(x)[k] == y);
        assert(sq.push(x).contains(y));
    }
    if x == y {
        assert(sq.push(x)[sq.len() as int] == y);
        assert(sq.push(x).contains(y));
    }
}


/// Number of set marks.
pub open spec fn count_marked(s: Seq<bool>) -> int
    decreases s.len(),
{
    if s.len() == 0 {
        0
    } else {
        count_marked(s.drop_last()) + if s.last() {
            1int
        } else {
            0int
        }
    }
}

/// The marked count never exceeds the length.
proof fn lemma_count_marked_le(s: Seq<bool>)
    ensures
        0 <= count_marked(s) <= s.len(),
    decreases s.len(),
{
    if s.len() > 0 {
        lemma_count_marked_le(s.drop_last());
    }
}

/// Setting an unset mark increments the marked count.
proof fn lemma_count_marked_update(s: Seq<bool>, i: int)
    requires
        0 <= i < s.len(),
        !s[i],
    ensures
        count_marked(s.update(i, true)) == count_marked(s) + 1,
    decreases s.len(),
{
    if i == s.len() - 1 {
        assert(s.update(i, true).drop_last() =~= s.drop_last());
    } else {
        assert(s.update(i, true).drop_last() =~= s.drop_last().update(i, true));
        lemma_count_marked_update(s.drop_last(), i);
    }
}

/// The marks are closed under walking an arc backwards: a state with an
/// arc to a marked state is marked.
pub open spec fn marks_closed<WV>(f: FstV<WV>, m: Seq<bool>) -> bool {
    forall|t: int, j: int|
        0 <= t < f.states.len() && 0 <= j < f.states[t].arcs.len() && m[(
        #[trigger] f.states[t].arcs[j]).nextstate as int] ==> m[t]
}

/// Walking a path towards a marked state through backward-closed marks
/// keeps the source marked.
proof fn lemma_path_to_marked<WV>(f: FstV<WV>, m: Seq<bool>, p: Seq<StateId>, src: StateId, dst: StateId)
    requires
        m.len() == f.states.len(),
        f.wf(),
        crate::algorithms::dfs_visit::is_path_between(f, p, src, dst),
        m[dst as int],
        marks_closed(f, m),
    ensures
        m[src as int],
    decreases p.len(),
{
    if p.len() > 1 {
        let q = p.drop_first();
        assert forall|k: int| 0 <= k < q.len() - 1 implies crate::algorithms::dfs_visit::has_arc_to(
            f,
            #[trigger] q[k],
            q[k + 1],
        ) by {
            assert(q[k] == p[k + 1]);
            assert(q[k + 1] == p[k + 2]);
            assert(crate::algorithms::dfs_visit::has_arc_to(f, p[k + 1], p[k + 2]));
        }
        assert(q[0] == p[1]);
        assert(forall|k: int| 0 <= k < q.len() ==> #[trigger] q[k] == p[k + 1]);
        assert(crate::algorithms::dfs_visit::is_path_between(f, q, p[1], dst));
        lemma_path_to_marked(f, m, q, p[1], dst);
        assert(crate::algorithms::dfs_visit::has_arc_to(f, p[0], p[1]));
        let j = choose|j: int|
            0 <= j < f.states[p[0] as int].arcs.len() && (#[trigger] f.states[p[0] as int].arcs[j]).nextstate
                == p[1];
        assert(m[p[0] as int]);
    }
}

/// Computes, for every state, whether it is coaccessible: the final states
/// are marked and the marks are propagated backwards over the arcs to a
/// fixed point.
fn coaccess_marks<W: Semiring>(fst: &VectorFst<W>) -> (r: Vec<bool>)
    requires
        fst@.wf(),
    ensures
        r@.len() == fst@.states.len(),
        forall|t: int|
            0 <= t < fst@.states.len() ==> (#[trigger] r@[t] <==> coaccessible_in(
                fst@,
                t as StateId,
            )),
{
    let n = fst.num_states();
    let mut marks: Vec<bool> = Vec::new();
    let mut s: usize = 0;
    while s < n
        invariant
            n == fst@.states.len(),
            s <= n,
            marks@.len() == s,
            forall|t: int|
                0 <= t < s ==> (#[trigger] marks@[t] == (fst@.states[t].final_weight is Some)),
        decreases n - s,
    {
        marks.push(fst.states[s].final_weight.is_some());
        s = s + 1;
    }
    proof {
        assert forall|t: int| 0 <= t < n && #[trigger] marks@[t] implies coaccessible_in(
            fst@,
            t as StateId,
        ) by {
            lemma_reachable_refl(fst@, t as StateId);
            assert((t as StateId) < fst@.states.len() && fst@.states[t] .final_weight is Some
                && reachable_in(fst@, t as StateId, t as StateId));
        }
    }
    loop
        invariant_except_break
            n == fst@.states.len(),
            fst@.wf(),
            marks@.len() == n,
            forall|t: int|
                0 <= t < n && #[trigger] marks@[t] ==> coaccessible_in(fst@, t as StateId),
            forall|t: int| 0 <= t < n && (fst@.states[t].final_weight is Some) ==> #[trigger] marks@[t],
        ensures
            n == fst@.states.len(),
            marks@.len() == n,
            forall|t: int|
                0 <= t < n && #[trigger] marks@[t] ==> coaccessible_in(fst@, t as StateId),
            forall|t: int| 0 <= t < n && (fst@.states[t].final_weight is Some) ==> #[trigger] marks@[t],
            marks_closed(fst@, marks@),
        decreases n - count_marked(marks@),
    {
        proof {
            lemma_count_marked_le(marks@);
        }
        let ghost head_marks = marks@;
        let mut changed = false;
        let mut t: usize = 0;
        while t < n
            invariant
                n == fst@.states.len(),
                fst@.wf(),
                marks@.len() == n,
                t <= n,
                head_marks.len() == n,
                forall|x: int|
                    0 <= x < n && #[trigger] marks@[x] ==> coaccessible_in(fst@, x as StateId),
                forall|x: int|
                    0 <= x < n && (fst@.states[x].final_weight is Some) ==> #[trigger] marks@[x],
                forall|x: int| 0 <= x < n && #[trigger] head_marks[x] ==> marks@[x],
                !changed ==> marks@ == head_marks,
                changed ==> count_marked(marks@) > count_marked(head_marks),
                !changed ==> (forall|t2: int, j: int|
                    0 <= t2 < t && 0 <= j < fst@.states[t2].arcs.len() && marks@[(
                    #[trigger] fst@.states[t2].arcs[j]).nextstate as int] ==> marks@[t2]),
            decreases n - t,
        {
            let narcs = fst.states[t].arcs.len();
            let mut j: usize = 0;
            while j < narcs
                invariant
                    n == fst@.states.len(),
                    fst@.wf(),
                    marks@.len() == n,
                    t < n,
                    j <= narcs,
                    narcs == fst@.states[t as int].arcs.len(),
                    head_marks.len() == n,
                    forall|x: int|
                        0 <= x < n && #[trigger] marks@[x] ==> coaccessible_in(fst@, x as StateId),
                    forall|x: int|
                        0 <= x < n && (fst@.states[x].final_weight is Some)
                            ==> #[trigger] marks@[x],
                    forall|x: int| 0 <= x < n && #[trigger] head_marks[x] ==> marks@[x],
                    !changed ==> marks@ == head_marks,
                    changed ==> count_marked(marks@) > count_marked(head_marks),
                    !changed ==> (forall|t2: int, j2: int|
                        0 <= t2 < t && 0 <= j2 < fst@.states[t2].arcs.len() && marks@[(
                        #[trigger] fst@.states[t2].arcs[j2]).nextstate as int] ==> marks@[t2]),
                    !changed ==> (forall|j2: int|
                        0 <= j2 < j && marks@[(#[trigger] fst@.states[t as int].arcs[j2]).nextstate as int]
                            ==> marks@[t as int]),
                decreases narcs - j,
            {
                let u = fst.states[t].arcs[j].nextstate;
                proof {
                    assert(fst@.states[t as int].arcs[j as int].nextstate == u);
                    assert(u < n);
                }
                if marks[u] && !marks[t] {
                    proof {
                        lemma_count_marked_update(marks@, t as int);
                        lemma_reachable_prepend(
                            fst@,
                            t as StateId,
                            j as int,
                            choose|d: StateId|
                                d < fst@.states.len() && (#[trigger] fst@.states[d as int].final_weight)
                                    is Some && reachable_in(fst@, u, d),
                        );
                    }
                    marks[t] = true;
                    changed = true;
                }
                j = j + 1;
            }
            t = t + 1;
        }
        proof {
            lemma_count_marked_le(marks@);
        }
        if !changed {
            break;
        }
    }
    proof {
        assert forall|t: int|
            0 <= t < n && coaccessible_in(fst@, t as StateId) implies #[trigger] marks@[t] by {
            let d = choose|d: StateId|
                d < fst@.states.len() && (#[trigger] fst@.states[d as int].final_weight) is Some
                    && reachable_in(fst@, t as StateId, d);
            let p = choose|p: Seq<StateId>|
                #[trigger] crate::algorithms::dfs_visit::is_path_between(fst@, p, t as StateId, d);
            lemma_path_to_marked(fst@, marks@, p, t as StateId, d);
        }
    }
    marks
}


/// The set of states `connect` removes: those that are not both
/// accessible from the start state and coaccessible to a final state.
pub open spec fn connect_deleted<WV>(f: FstV<WV>) -> Set<StateId> {
    Set::new(
        |s: StateId|
            !((f.start matches Some(st) && reachable_in(f, st, s)) && coaccessible_in(f, s)),
    )
}

/// A path running through kept states only maps, state by state, to a
/// path of the trimmed FST.
proof fn lemma_path_maps_to_trimmed<WV>(
    f: FstV<WV>,
    del: Set<StateId>,
    p: Seq<StateId>,
    src: StateId,
    dst: StateId,
)
    requires
        f.wf(),
        f.states.len() <= usize::MAX,
        is_path_between(f, p, src, dst),
        forall|k: int| 0 <= k < p.len() ==> !del.contains(#[trigger] p[k]),
    ensures
        reachable_in(
            del_states_spec(f, del),
            num_kept_below(del, src as int) as StateId,
            num_kept_below(del, dst as int) as StateId,
        ),
{
    let g = del_states_spec(f, del);
    let n = f.states.len() as int;
    lemma_remap_states_len(f.states, del);
    let q = p.map_values(|x: StateId| num_kept_below(del, x as int) as StateId);
    assert(q[0] == num_kept_below(del, src as int) as StateId);
    assert(q.last() == num_kept_below(del, dst as int) as StateId);
    assert forall|k: int| 0 <= k < q.len() implies #[trigger] q[k] < g.states.len() by {
        assert(q[k] == num_kept_below(del, p[k] as int) as StateId);
        lemma_num_kept_below_strict(del, p[k] as int, n);
        lemma_num_kept_below_bounds(del, 0, p[k] as int);
    }
    assert forall|k: int| 0 <= k < q.len() - 1 implies has_arc_to(g, #[trigger] q[k], q[k + 1]) by {
        assert(has_arc_to(f, p[k], p[k + 1]));
        let j = choose|j: int|
            0 <= j < f.states[p[k] as int].arcs.len() && (
            #[trigger] f.states[p[k] as int].arcs[j]).nextstate == p[k + 1];
        lemma_remap_states_index(f.states, del, p[k] as int);
        lemma_num_kept_below_strict(del, p[k] as int, n);
        lemma_num_kept_below_bounds(del, 0, p[k] as int);
        assert(q[k] as int == num_kept_below(del, p[k] as int));
        assert(g.states[q[k] as int].arcs == remap_arcs(f.states[p[k] as int].arcs, del));
        lemma_remap_arcs_contains(f.states[p[k] as int].arcs, del, j);
        let k2 = choose|k2: int|
            0 <= k2 < remap_arcs(f.states[p[k] as int].arcs, del).len() && #[trigger] remap_arcs(
                f.states[p[k] as int].arcs,
                del,
            )[k2] == remap_arc(f.states[p[k] as int].arcs[j], del);
        assert(g.states[q[k] as int].arcs[k2].nextstate == num_kept_below(
            del,
            p[k + 1] as int,
        ) as StateId);
        assert(g.states[q[k] as int].arcs[k2].nextstate == q[k + 1]);
    }
    assert(is_path_between(g, q, q[0], q.last()));
}

/// The arcs taken at step `k` of two runs carry the same labels and the
/// same weight.
spec fn arcs_agree_at<W: Semiring>(
    f: FstV<<W as View>::V>,
    s: Seq<StateId>,
    a: Seq<int>,
    g: FstV<<W as View>::V>,
    s2: Seq<StateId>,
    a2: Seq<int>,
    k: int,
) -> bool {
    let arc1 = f.states[s[k] as int].arcs[a[k]];
    let arc2 = g.states[s2[k] as int].arcs[a2[k]];
    &&& arc2.ilabel == arc1.ilabel
    &&& arc2.olabel == arc1.olabel
    &&& arc2.weight == arc1.weight
}

/// Two runs whose arcs agree step by step on labels and weight read the
/// same path value, and their weight products are defined alike.
proof fn lemma_run_fold_agree<W: Semiring>(
    f: FstV<<W as View>::V>,
    s: Seq<StateId>,
    a: Seq<int>,
    g: FstV<<W as View>::V>,
    s2: Seq<StateId>,
    a2: Seq<int>,
)
    requires
        s.len() == a.len() + 1,
        s2.len() == a2.len() + 1,
        a2.len() == a.len(),
        forall|k: int| 0 <= k < a.len() ==> #[trigger] arcs_agree_at::<W>(f, s, a, g, s2, a2, k),
    ensures
        run_fold::<W>(g, s2, a2) == run_fold::<W>(f, s, a),
        run_ok::<W>(g, s2, a2) == run_ok::<W>(f, s, a),
    decreases a.len(),
{
    if a.len() == 0 {
        assert(run_fold::<W>(g, s2, a2) =~= run_fold::<W>(f, s, a));
    } else {
        assert forall|k: int|
            0 <= k < a.len() - 1 implies #[trigger] arcs_agree_at::<W>(
            f,
            s.drop_last(),
            a.drop_last(),
            g,
            s2.drop_last(),
            a2.drop_last(),
            k,
        ) by {
            assert(arcs_agree_at::<W>(f, s, a, g, s2, a2, k));
            assert(s.drop_last()[k] == s[k]);
            assert(a.drop_last()[k] == a[k]);
            assert(s2.drop_last()[k] == s2[k]);
            assert(a2.drop_last()[k] == a2[k]);
        }
        lemma_run_fold_agree::<W>(f, s.drop_last(), a.drop_last(), g, s2.drop_last(), a2.drop_last());
        assert(arcs_agree_at::<W>(f, s, a, g, s2, a2, a.len() - 1));
        assert(run_fold::<W>(g, s2, a2) =~= run_fold::<W>(f, s, a));
    }
}

/// Law: trimming preserves accepted paths.  Every accepting run of an
/// FST passes through accessible and coaccessible states only, so it
/// maps to an accepting run of the trimmed FST reading the same path.
pub proof fn lemma_connect_preserves_accepted_runs<W: Semiring>(
    f: FstV<<W as View>::V>,
    s: Seq<StateId>,
    a: Seq<int>,
)
    requires
        f.wf(),
        f.states.len() <= usize::MAX,
        is_accepting_run::<W>(f, s, a),
    ensures
        ({
            let g = del_states_spec(f, connect_deleted(f));
            exists|s2: Seq<StateId>, a2: Seq<int>|
                #[trigger] is_accepting_run::<W>(g, s2, a2) && run_value::<W>(g, s2, a2)
                    == run_value::<W>(f, s, a)
        }),
{
    let del = connect_deleted(f);
    let g = del_states_spec(f, del);
    let n = f.states.len() as int;
    let st = s[0];
    assert(f.start == Some(st));
    assert forall|k: int| 0 <= k < s.len() implies #[trigger] s[k] < f.states.len() by {
        if k < a.len() {
            assert(run_step_ok::<W>(f, s, a, k));
        }
    }
    assert forall|k: int| 0 <= k < s.len() implies !del.contains(#[trigger] s[k]) by {
        let pa = s.take(k + 1);
        assert forall|i: int| 0 <= i < pa.len() - 1 implies has_arc_to(f, #[trigger] pa[i], pa[i
            + 1]) by {
            assert(run_step_ok::<W>(f, s, a, i));
            assert(f.states[s[i] as int].arcs[a[i]].nextstate == s[i + 1]);
        }
        assert(is_path_between(f, pa, st, s[k]));
        assert(reachable_in(f, st, s[k]));
        let pc = s.skip(k);
        assert forall|i: int| 0 <= i < pc.len() - 1 implies has_arc_to(f, #[trigger] pc[i], pc[i
            + 1]) by {
            assert(run_step_ok::<W>(f, s, a, k + i));
            assert(f.states[s[k + i] as int].arcs[a[k + i]].nextstate == s[k + i + 1]);
            assert(pc[i] == s[k + i]);
            assert(pc[i + 1] == s[k + i + 1]);
        }
        assert(pc.last() == s.last());
        assert(is_path_between(f, pc, s[k], s.last()));
        assert(reachable_in(f, s[k], s.last()));
        assert(f.states[s.last() as int].final_weight is Some);
        assert(coaccessible_in(f, s[k]));
    }
    lemma_remap_states_len(f.states, del);
    lemma_num_kept_below_bounds(del, 0, n);
    let s2 = Seq::new(s.len(), |k: int| num_kept_below(del, s[k] as int) as StateId);
    let a2 = Seq::new(
        a.len(),
        |k: int|
            choose|k2: int|
                0 <= k2 < g.states[s2[k] as int].arcs.len() && #[trigger] g.states[s2[k] as int].arcs[k2]
                    == remap_arc(f.states[s[k] as int].arcs[a[k]], del),
    );
    assert forall|k: int|
        0 <= k < s.len() implies (#[trigger] s2[k] as int == num_kept_below(del, s[k] as int)
        && s2[k] < g.states.len()) by {
        lemma_num_kept_below_strict(del, s[k] as int, n);
        lemma_num_kept_below_bounds(del, 0, s[k] as int);
    }
    assert forall|k: int|
        0 <= k < a.len() implies (0 <= #[trigger] a2[k] < g.states[s2[k] as int].arcs.len()
        && g.states[s2[k] as int].arcs[a2[k]] == remap_arc(
        f.states[s[k] as int].arcs[a[k]],
        del,
    )) by {
        lemma_remap_states_index(f.states, del, s[k] as int);
        assert(g.states[s2[k] as int].arcs == remap_arcs(f.states[s[k] as int].arcs, del));
        assert(run_step_ok::<W>(f, s, a, k));
        assert(f.states[s[k] as int].arcs[a[k]].nextstate == s[k + 1]);
        assert(!del.contains(f.states[s[k] as int].arcs[a[k]].nextstate));
        lemma_remap_arcs_contains(f.states[s[k] as int].arcs, del, a[k]);
    }
    assert(is_run::<W>(g, s2, a2)) by {
        assert(!del.contains(st));
        assert(g.start == Some(s2[0]));
        assert forall|k: int| 0 <= k < a2.len() implies #[trigger] run_step_ok::<W>(g, s2, a2, k) by {
            assert(run_step_ok::<W>(f, s, a, k));
            assert(g.states[s2[k] as int].arcs[a2[k]].nextstate == num_kept_below(
                del,
                s[k + 1] as int,
            ) as StateId);
        }
    }
    assert forall|k: int|
        0 <= k < a.len() implies #[trigger] arcs_agree_at::<W>(f, s, a, g, s2, a2, k) by {}
    lemma_run_fold_agree::<W>(f, s, a, g, s2, a2);
    lemma_remap_states_index(f.states, del, s.last() as int);
    assert(s2.last() as int == num_kept_below(del, s.last() as int));
    assert(g.states[s2.last() as int].final_weight == f.states[s.last() as int].final_weight);
    assert(is_accepting_run::<W>(g, s2, a2));
    assert(run_value::<W>(g, s2, a2) =~= run_value::<W>(f, s, a));
}

/// Law: trimming invents no paths.  Every accepting run of the trimmed
/// FST is the image of an accepting run of the original reading the
/// same path.
pub proof fn lemma_connect_reflects_accepted_runs<W: Semiring>(
    f: FstV<<W as View>::V>,
    s2: Seq<StateId>,
    a2: Seq<int>,
)
    requires
        f.wf(),
        f.states.len() <= usize::MAX,
        is_accepting_run::<W>(del_states_spec(f, connect_deleted(f)), s2, a2),
    ensures
        exists|s: Seq<StateId>, a: Seq<int>|
            #[trigger] is_accepting_run::<W>(f, s, a) && run_value::<W>(f, s, a) == run_value::<W>(
                del_states_spec(f, connect_deleted(f)),
                s2,
                a2,
            ),
{
    let del = connect_deleted(f);
    let g = del_states_spec(f, del);
    let n = f.states.len() as int;
    lemma_remap_states_len(f.states, del);
    lemma_num_kept_below_bounds(del, 0, n);
    assert forall|k: int| 0 <= k < s2.len() implies #[trigger] s2[k] < g.states.len() by {
        if k < a2.len() {
            assert(run_step_ok::<W>(g, s2, a2, k));
        }
    }
    let s = Seq::new(
        s2.len(),
        |k: int|
            (choose|t: int|
                0 <= t < f.states.len() && !del.contains(t as StateId) && #[trigger] num_kept_below(
                    del,
                    t,
                ) == s2[k]) as StateId,
    );
    assert forall|k: int|
        0 <= k < s2.len() implies (#[trigger] s[k] < f.states.len() && !del.contains(s[k])
        && num_kept_below(del, s[k] as int) == s2[k]) by {
        lemma_remap_states_surjective(f.states, del, s2[k] as int);
        let t = choose|t: int|
            0 <= t < f.states.len() && !del.contains(t as StateId) && #[trigger] num_kept_below(
                del,
                t,
            ) == s2[k];
        assert(s[k] == t as StateId);
        assert((t as StateId) as int == t);
    }
    let a = Seq::new(
        a2.len(),
        |k: int|
            choose|j: int|
                0 <= j < f.states[s[k] as int].arcs.len() && !del.contains(
                    (#[trigger] f.states[s[k] as int].arcs[j]).nextstate,
                ) && remap_arcs(f.states[s[k] as int].arcs, del)[a2[k]] == remap_arc(
                    f.states[s[k] as int].arcs[j],
                    del,
                ),
    );
    assert forall|k: int|
        0 <= k < a2.len() implies (0 <= #[trigger] a[k] < f.states[s[k] as int].arcs.len()
        && !del.contains(f.states[s[k] as int].arcs[a[k]].nextstate) && g.states[s2[k] as int].arcs[a2[k]]
            == remap_arc(f.states[s[k] as int].arcs[a[k]], del)) by {
        lemma_remap_states_index(f.states, del, s[k] as int);
        assert(g.states[s2[k] as int].arcs == remap_arcs(f.states[s[k] as int].arcs, del));
        assert(run_step_ok::<W>(g, s2, a2, k));
        lemma_remap_arcs_elements(f.states[s[k] as int].arcs, del, a2[k]);
    }
    assert forall|k: int|
        0 <= k < a2.len() implies f.states[(#[trigger] s[k]) as int].arcs[a[k]].nextstate == s[k
        + 1] by {
        let arc1 = f.states[s[k] as int].arcs[a[k]];
        assert(arc1.nextstate < f.states.len());
        assert(run_step_ok::<W>(g, s2, a2, k));
        assert(remap_arc(arc1, del).nextstate == s2[k + 1]);
        lemma_num_kept_below_bounds(del, 0, arc1.nextstate as int);
        assert(num_kept_below(del, arc1.nextstate as int) == s2[k + 1]);
        lemma_num_kept_below_injective(del, arc1.nextstate as int, s[k + 1] as int);
    }
    assert(is_run::<W>(f, s, a)) by {
        assert(g.start == Some(s2[0]));
        assert(f.start matches Some(st0) && !del.contains(st0));
        let st0 = f.start.unwrap();
        assert(num_kept_below(del, st0 as int) as StateId == s2[0]);
        lemma_num_kept_below_bounds(del, 0, st0 as int);
        lemma_num_kept_below_injective(del, st0 as int, s[0] as int);
        assert(f.start == Some(s[0]));
        assert forall|k: int| 0 <= k < a.len() implies #[trigger] run_step_ok::<W>(f, s, a, k) by {}
    }
    assert forall|k: int|
        0 <= k < a.len() implies #[trigger] arcs_agree_at::<W>(f, s, a, g, s2, a2, k) by {}
    lemma_run_fold_agree::<W>(f, s, a, g, s2, a2);
    lemma_remap_states_index(f.states, del, s.last() as int);
    assert(s2.last() as int == num_kept_below(del, s.last() as int));
    assert(g.states[s2.last() as int].final_weight == f.states[s.last() as int].final_weight);
    assert(is_accepting_run::<W>(f, s, a));
    assert(run_value::<W>(f, s, a) =~= run_value::<W>(g, s2, a2));
}

/// Law: trimming is idempotent.  Every state the first trim keeps is
/// accessible and coaccessible in the trimmed FST as well, so a second
/// trim deletes nothing.
pub proof fn lemma_connect_idempotent<WV>(f: FstV<WV>)
    requires
        f.wf(),
        f.states.len() <= usize::MAX,
    ensures
        ({
            let g = del_states_spec(f, connect_deleted(f));
            del_states_spec(g, connect_deleted(g)) == g
        }),
{
    let del = connect_deleted(f);
    let g = del_states_spec(f, del);
    let n = f.states.len() as int;
    lemma_del_states_spec_wf(f, del);
    lemma_remap_states_len(f.states, del);
    lemma_num_kept_below_bounds(del, 0, n);
    assert forall|t: int|
        0 <= t < g.states.len() implies ((g.start matches Some(st2) && reachable_in(
        g,
        st2,
        t as StateId,
    )) && #[trigger] coaccessible_in(g, t as StateId)) by {
        let i: StateId = t as StateId;
        assert(i as int == t);
        lemma_remap_states_surjective(f.states, del, i as int);
        let s = choose|s: int|
            0 <= s < f.states.len() && !del.contains(s as StateId) && #[trigger] num_kept_below(
                del,
                s,
            ) == i;
        // the kept state was accessible and coaccessible in f
        assert((f.start matches Some(st) && reachable_in(f, st, s as StateId))
            && coaccessible_in(f, s as StateId));
        let st = f.start.unwrap();
        let pa = choose|pa: Seq<StateId>| #[trigger] is_path_between(f, pa, st, s as StateId);
        let d = choose|d: StateId|
            d < f.states.len() && (#[trigger] f.states[d as int].final_weight) is Some
                && reachable_in(f, s as StateId, d);
        let pc = choose|pc: Seq<StateId>| #[trigger] is_path_between(f, pc, s as StateId, d);
        // every state on the access path is kept
        assert forall|k: int| 0 <= k < pa.len() implies !del.contains(#[trigger] pa[k]) by {
            lemma_path_prefix(f, pa, st, s as StateId, k);
            lemma_path_suffix(f, pa, st, s as StateId, k);
            lemma_reachable_trans(f, pa[k], s as StateId, d);
            assert(coaccessible_in(f, pa[k]));
        }
        // every state on the coaccess path is kept
        assert forall|k: int| 0 <= k < pc.len() implies !del.contains(#[trigger] pc[k]) by {
            lemma_path_prefix(f, pc, s as StateId, d, k);
            lemma_reachable_trans(f, st, s as StateId, pc[k]);
            lemma_path_suffix(f, pc, s as StateId, d, k);
            assert(reachable_in(f, st, pc[k]));
            assert(coaccessible_in(f, pc[k]));
        }
        // the start state itself is kept
        assert(!del.contains(st)) by {
            lemma_reachable_refl(f, st);
            lemma_reachable_trans(f, st, s as StateId, d);
            assert(coaccessible_in(f, st));
        }
        assert(g.start == Some(num_kept_below(del, st as int) as StateId));
        lemma_path_maps_to_trimmed(f, del, pa, st, s as StateId);
        lemma_num_kept_below_strict(del, s, n);
        lemma_num_kept_below_bounds(del, 0, s);
        assert((s as StateId) as int == s);
        assert(num_kept_below(del, (s as StateId) as int) as StateId == i);
        assert(reachable_in(g, num_kept_below(del, st as int) as StateId, i));
        lemma_path_maps_to_trimmed(f, del, pc, s as StateId, d);
        // the mapped final state witnesses coaccessibility in g
        lemma_remap_states_index(f.states, del, d as int);
        assert(g.states[num_kept_below(del, d as int)].final_weight == f.states[
            d as int].final_weight);
        lemma_num_kept_below_strict(del, d as int, n);
        lemma_num_kept_below_bounds(del, 0, d as int);
        let fd: StateId = num_kept_below(del, d as int) as StateId;
        assert(fd < g.states.len());
        assert(g.states[fd as int].final_weight is Some);
        assert(reachable_in(g, i, fd));
        assert(coaccessible_in(g, t as StateId));
    }
    assert forall|t: int|
        0 <= t < g.states.len() implies !(#[trigger] connect_deleted(g).contains(
        t as StateId,
    )) by {
        assert((t as StateId) < g.states.len());
        assert(coaccessible_in(g, t as StateId));
    }
    lemma_del_states_spec_identity(g, connect_deleted(g));
}

/// Connectivity visitor: computes the access and coaccess marks of every
/// state by running the shared Tarjan core without SCC recording.
pub struct ConnectVisitor {
    /// The underlying visitor, configured to record access marks and no
    /// SCC identifiers.
    pub visitor: SccVisitor,
}

impl ConnectVisitor {
    /// Builds a fresh connectivity visitor for `fst`.
    pub fn new<W: Semiring>(fst: &VectorFst<W>) -> (r: Self)
        requires
            fst@.wf(),
            fst@.states.len() <= i32::MAX as nat,
        ensures
            r.visitor.inv(),
            r.visitor.fresh(),
            r.visitor.n() == fst@.states.len(),
            r.visitor.scc is None,
            r.visitor.access is Some,
            r.visitor.start as int == (match fst@.start {
                Some(st) => st as int,
                None => NO_STATE_ID as int,
            }),
    {
        ConnectVisitor { visitor: SccVisitor::new(fst, false, true) }
    }
}

/// Trims the FST: deletes every state that is not both accessible
/// (reachable from the start state) and coaccessible (able to reach a
/// final state), compacting the remaining states and rewriting their
/// arcs.  The access marks come from the traversal; coaccessibility is
/// established by the backward closure above, so the deleted set is
/// characterized exactly: a state is deleted if and only if it fails
/// accessibility or coaccessibility (with no start state, every state is
/// deleted).
pub fn connect<W: Semiring>(fst: &mut VectorFst<W>) -> (r: Result<(), FstError>)
    requires
        old(fst)@.wf(),
        old(fst)@.states.len() <= i32::MAX as nat,
    ensures
        r is Ok,
        final(fst)@.wf(),
        final(fst)@ == del_states_spec(old(fst)@, connect_deleted(old(fst)@)),
{
    let mut visitor = ConnectVisitor::new(fst);
    dfs_visit(fst, &mut visitor.visitor, false);
    let coacc = coaccess_marks(fst);
    let n = fst.num_states();
    let mut dstates: Vec<StateId> = Vec::new();
    let mut s: usize = 0;
    while s < n
        invariant
            fst@ == old(fst)@,
            n == fst@.states.len(),
            coacc@.len() == n,
            forall|t: int|
                0 <= t < n ==> (#[trigger] coacc@[t] <==> coaccessible_in(fst@, t as StateId)),
            (visitor.visitor.access matches Some(a) ==> a@.len() == n),
            visitor.visitor.access is Some,
            (match visitor.visitor.access {
                Some(a) => forall|t: int|
                    0 <= t < n ==> (#[trigger] a@[t] <==> (fst@.start matches Some(st)
                        && reachable_in(fst@, st, t as StateId))),
                None => false,
            }),
            s <= n,
            forall|k: int| 0 <= k < dstates@.len() ==> #[trigger] dstates@[k] < n,
            forall|t: int|
                0 <= t < s ==> ((#[trigger] dstates@.contains(t as StateId)) <==> !((match visitor.visitor.access {
                    Some(a) => a@[t],
                    None => false,
                }) && coacc@[t])),
            forall|t: int| s <= t < n ==> !(#[trigger] dstates@.contains(t as StateId)),
        decreases n - s,
    {
        let acc = match &visitor.visitor.access {
            Some(a) => a[s],
            None => false,
        };
        let co = coacc[s];
        let ghost before = dstates@;
        if !acc || !co {
            dstates.push(s);
        }
        proof {
            assert forall|t: int|
                0 <= t < n implies ((#[trigger] dstates@.contains(t as StateId)) <==> (
            before.contains(t as StateId) || ((!acc || !co) && t == s as int))) by {
                if !acc || !co {
                    lemma_push_contains(before, s, t as StateId);
                }
            }
        }
        s = s + 1;
    }
    let ghost del = dstates@.to_set();
    proof {
        assert forall|s2: StateId| s2 < n implies (#[trigger] del.contains(s2)
            <==> dstates@.contains(s2)) by {}
    }
    match fst.del_states(dstates) {
        Ok(_) => {
            proof {
                assert(fst@ == del_states_spec(old(fst)@, del));
                assert forall|s2: StateId|
                    s2 < n implies (#[trigger] del.contains(s2) <==> !((old(
                    fst,
                )@.start matches Some(st) && reachable_in(old(fst)@, st, s2)) && coaccessible_in(
                    old(fst)@,
                    s2,
                ))) by {
                    let t = s2 as int;
                    assert(t as StateId == s2);
                    assert(dstates@.contains(t as StateId) <==> !((match old(fst)@.start {
                        Some(st) => reachable_in(old(fst)@, st, t as StateId),
                        None => false,
                    }) && coaccessible_in(old(fst)@, t as StateId)));
                }
                assert forall|t: int|
                    0 <= t < n implies (#[trigger] del.contains(t as StateId)
                    <==> connect_deleted(old(fst)@).contains(t as StateId)) by {
                    assert((t as StateId) < n);
                }
                lemma_del_states_spec_congruent(old(fst)@, del, connect_deleted(old(fst)@));
            }
            Ok(())
        },
        Err(e) => Err(e),
    }
}

} // verus!
