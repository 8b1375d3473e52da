//! Depth-first traversal engine.
//!
//! The engine owns the discovery bookkeeping (a white / grey / black color
//! per state) and drives a visitor: a state is reported once when
//! discovered, every arc is classified as tree (to a white state), back (to
//! a grey state) or forward/cross (to a black state), and a state is
//! reported again when its arcs are exhausted.

use vstd::prelude::*;

use crate::algorithms::visitors::scc_visitors::SccVisitor;
use crate::fst_impls::vector_fst::{FstV, VectorFst};
use crate::semirings::semiring::Semiring;
use crate::{StateId, NO_STATE_ID};

verus! {

/// Color of a state the traversal has not reached yet.
pub const WHITE: u8 = 0;

/// Color of a discovered state whose exploration is not finished.
pub const GREY: u8 = 1;

/// Color of a state whose exploration is finished.
pub const BLACK: u8 = 2;

/// Number of unvisited states.
pub open spec fn count_white(colors: Seq<u8>) -> int
    decreases colors.len(),
{
    if colors.len() == 0 {
        0
    } else {
        count_white(colors.drop_last()) + if colors.last() == WHITE {
            1int
        } else {
            0int
        }
    }
}

/// The white count never exceeds the length.
pub proof fn lemma_count_white_le(colors: Seq<u8>)
    ensures
        0 <= count_white(colors) <= colors.len(),
    decreases colors.len(),
{
    if colors.len() > 0 {
        lemma_count_white_le(colors.drop_last());
    }
}

/// Coloring a white state decrements the white count.
pub proof fn lemma_count_white_update(colors: Seq<u8>, i: int, c: u8)
    requires
        0 <= i < colors.len(),
        colors[i] == WHITE,
        c != WHITE,
    ensures
        count_white(colors.update(i, c)) == count_white(colors) - 1,
    decreases colors.len(),
{
    if i == colors.len() - 1 {
        assert(colors.update(i, c).drop_last() =~= colors.drop_last());
    } else {
        assert(colors.update(i, c).drop_last() =~= colors.drop_last().update(i, c));
        lemma_count_white_update(colors.drop_last(), i, c);
    }
}

/// When the white states of `b` are white in `a` too, `b` has at most as
/// many white states.
pub proof fn lemma_count_white_subset(a: Seq<u8>, b: Seq<u8>)
    requires
        a.len() == b.len(),
        forall|t: int| 0 <= t < b.len() && #[trigger] b[t] == WHITE ==> a[t] == WHITE,
    ensures
        count_white(b) <= count_white(a),
    decreases a.len(),
{
    if a.len() > 0 {
        lemma_count_white_subset(a.drop_last(), b.drop_last());
        assert(forall|t: int|
            0 <= t < b.len() - 1 && #[trigger] b.drop_last()[t] == WHITE ==> a.drop_last()[t]
                == WHITE);
    }
}

/// A vector holding `n` copies of a color.
fn filled_u8(n: usize, value: u8) -> (r: Vec<u8>)
    ensures
        r@.len() == n,
        forall|t: int| 0 <= t < n ==> #[trigger] r@[t] == value,
{
    let mut r: Vec<u8> = Vec::new();
    let mut i: usize = 0;
    while i < n
        invariant
            r@.len() == i,
            i <= n,
            forall|t: int| 0 <= t < i ==> #[trigger] r@[t] == value,
        decreases n - i,
    {
        r.push(value);
        i = i + 1;
    }
    r
}


/// The smallest discovery number on the stack; larger than every possible
/// discovery number when the stack is empty.
pub open spec fn stack_min(dfn: Seq<i32>, stack: Seq<StateId>) -> int
    decreases stack.len(),
{
    if stack.len() == 0 {
        i32::MAX as int + 1
    } else {
        let rest = stack_min(dfn, stack.drop_last());
        if dfn[stack.last() as int] < rest {
            dfn[stack.last() as int] as int
        } else {
            rest
        }
    }
}

/// Every stack entry's discovery number is at least the stack minimum.
pub proof fn lemma_stack_min_le(dfn: Seq<i32>, stack: Seq<StateId>, k: int)
    requires
        0 <= k < stack.len(),
    ensures
        dfn[stack[k] as int] >= stack_min(dfn, stack),
    decreases stack.len(),
{
    if k < stack.len() - 1 {
        lemma_stack_min_le(dfn, stack.drop_last(), k);
    }
}

/// A pointwise lower bound on the stack entries bounds the stack minimum.
pub proof fn lemma_stack_min_lb(dfn: Seq<i32>, stack: Seq<StateId>, m: int)
    requires
        m <= i32::MAX as int + 1,
        forall|k: int| 0 <= k < stack.len() ==> dfn[#[trigger] stack[k] as int] >= m,
    ensures
        stack_min(dfn, stack) >= m,
    decreases stack.len(),
{
    if stack.len() > 0 {
        lemma_stack_min_lb(dfn, stack.drop_last(), m);
        assert(dfn[stack[stack.len() - 1] as int] >= m);
    }
}

/// The lower bound that every lowlink computed strictly inside a subtree
/// obeys: nothing below the discovery counter at entry, except through
/// states already on the stack.
pub open spec fn entry_bound(nstates: int, dfn: Seq<i32>, stack: Seq<StateId>) -> int {
    if nstates < stack_min(dfn, stack) {
        nstates
    } else {
        stack_min(dfn, stack)
    }
}

/// The engine's colors agree with the visitor's discovery numbers.
pub open spec fn coupled(colors: Seq<u8>, v: &SccVisitor) -> bool {
    &&& colors.len() == v.n()
    &&& (forall|t: int|
        0 <= t < colors.len() ==> ((#[trigger] colors[t] == WHITE) <==> v.dfnumber@[t] == -1))
}

/// Every grey state sits on the visitor's SCC stack.
pub open spec fn greys_on_stack(colors: Seq<u8>, v: &SccVisitor) -> bool {
    forall|t: int| 0 <= t < colors.len() && #[trigger] colors[t] == GREY ==> v.onstack@[t]
}


/// There is an arc from `a` to `b`.
pub open spec fn has_arc_to<WV>(f: FstV<WV>, a: StateId, b: StateId) -> bool {
    exists|i: int|
        0 <= i < f.states[a as int].arcs.len() && (#[trigger] f.states[a as int].arcs[i]).nextstate
            == b
}

/// `p` is a path of existing states from `src` to `dst`, each step
/// following some arc.
pub open spec fn is_path_between<WV>(
    f: FstV<WV>,
    p: Seq<StateId>,
    src: StateId,
    dst: StateId,
) -> bool {
    &&& p.len() >= 1
    &&& p[0] == src
    &&& p.last() == dst
    &&& (forall|k: int| 0 <= k < p.len() ==> #[trigger] p[k] < f.states.len())
    &&& (forall|k: int| 0 <= k < p.len() - 1 ==> has_arc_to(f, #[trigger] p[k], p[k + 1]))
}

/// `dst` can be reached from `src` by following arcs.
pub open spec fn reachable_in<WV>(f: FstV<WV>, src: StateId, dst: StateId) -> bool {
    exists|p: Seq<StateId>| #[trigger] is_path_between(f, p, src, dst)
}

/// Every state reaches itself.
pub proof fn lemma_reachable_refl<WV>(f: FstV<WV>, s: StateId)
    requires
        s < f.states.len(),
    ensures
        reachable_in(f, s, s),
{
    let p = seq![s];
    assert(is_path_between(f, p, s, s));
}

/// Following one arc extends reachability.
pub proof fn lemma_reachable_step<WV>(f: FstV<WV>, src: StateId, a: StateId, i: int)
    requires
        reachable_in(f, src, a),
        a < f.states.len(),
        0 <= i < f.states[a as int].arcs.len(),
        f.states[a as int].arcs[i].nextstate < f.states.len(),
    ensures
        reachable_in(f, src, f.states[a as int].arcs[i].nextstate),
{
    let b = f.states[a as int].arcs[i].nextstate;
    let p = choose|p: Seq<StateId>| #[trigger] is_path_between(f, p, src, a);
    let q = p.push(b);
    assert forall|k: int| 0 <= k < q.len() - 1 implies has_arc_to(f, #[trigger] q[k], q[k + 1]) by {
        if k < p.len() - 1 {
            assert(q[k] == p[k]);
            assert(q[k + 1] == p[k + 1]);
            assert(has_arc_to(f, p[k], p[k + 1]));
        } else {
            assert(q[k] == a);
            assert(q[k + 1] == b);
            assert(f.states[a as int].arcs[i].nextstate == b);
            assert(has_arc_to(f, a, b));
        }
    }
    assert(is_path_between(f, q, src, b));
}


/// `s` can reach some final state.
pub open spec fn coaccessible_in<WV>(f: FstV<WV>, s: StateId) -> bool {
    exists|t: StateId|
        t < f.states.len() && (#[trigger] f.states[t as int].final_weight) is Some && reachable_in(
            f,
            s,
            t,
        )
}

/// Prepending one arc extends reachability from the new source.
pub proof fn lemma_reachable_prepend<WV>(f: FstV<WV>, a: StateId, i: int, dst: StateId)
    requires
        a < f.states.len(),
        0 <= i < f.states[a as int].arcs.len(),
        reachable_in(f, f.states[a as int].arcs[i].nextstate, dst),
    ensures
        reachable_in(f, a, dst),
{
    let b = f.states[a as int].arcs[i].nextstate;
    let p = choose|p: Seq<StateId>| #[trigger] is_path_between(f, p, b, dst);
    let q = seq![a] + p;
    assert(q[0] == a);
    assert(q.last() == p.last());
    assert forall|k: int| 0 <= k < q.len() implies #[trigger] q[k] < f.states.len() by {
        if k > 0 {
            assert(q[k] == p[k - 1]);
        }
    }
    assert forall|k: int| 0 <= k < q.len() - 1 implies has_arc_to(f, #[trigger] q[k], q[k + 1]) by {
        if k == 0 {
            assert(q[1] == p[0]);
            assert(f.states[a as int].arcs[i].nextstate == b);
            assert(has_arc_to(f, a, b));
        } else {
            assert(q[k] == p[k - 1]);
            assert(q[k + 1] == p[k]);
            assert(has_arc_to(f, p[k - 1], p[k]));
        }
    }
    assert(is_path_between(f, q, a, dst));
}


/// Reachability is transitive.
pub proof fn lemma_reachable_trans<WV>(f: FstV<WV>, a: StateId, b: StateId, c: StateId)
    requires
        reachable_in(f, a, b),
        reachable_in(f, b, c),
    ensures
        reachable_in(f, a, c),
{
    let p1 = choose|p: Seq<StateId>| #[trigger] is_path_between(f, p, a, b);
    let p2 = choose|p: Seq<StateId>| #[trigger] is_path_between(f, p, b, c);
    let q = p1 + p2.skip(1);
    assert(q.len() == p1.len() + p2.len() - 1);
    assert(q[0] == p1[0]);
    assert forall|k: int| 0 <= k < q.len() implies #[trigger] q[k] < f.states.len() by {
        if k < p1.len() {
            assert(q[k] == p1[k]);
        } else {
            assert(q[k] == p2[k - p1.len() + 1]);
        }
    }
    assert(q.last() == (if p2.len() == 1 {
        p1.last()
    } else {
        p2.last()
    }));
    assert forall|k: int| 0 <= k < q.len() - 1 implies has_arc_to(f, #[trigger] q[k], q[k + 1]) by {
        if k < p1.len() - 1 {
            assert(q[k] == p1[k]);
            assert(q[k + 1] == p1[k + 1]);
            assert(has_arc_to(f, p1[k], p1[k + 1]));
        } else if k == p1.len() - 1 {
            assert(q[k] == p1.last());
            assert(p1.last() == b);
            assert(q[k + 1] == p2[1]);
            assert(has_arc_to(f, p2[0], p2[1]));
        } else {
            assert(q[k] == p2[k - p1.len() + 1]);
            assert(q[k + 1] == p2[k - p1.len() + 2]);
            assert(has_arc_to(f, p2[k - p1.len() + 1], p2[k - p1.len() + 2]));
        }
    }
    assert(is_path_between(f, q, a, c));
}

/// A prefix of a path is a path to its last state.
pub proof fn lemma_path_prefix<WV>(f: FstV<WV>, p: Seq<StateId>, src: StateId, dst: StateId, k: int)
    requires
        is_path_between(f, p, src, dst),
        0 <= k < p.len(),
    ensures
        reachable_in(f, src, p[k]),
{
    let q = p.take(k + 1);
    assert(q[0] == p[0]);
    assert(q.last() == p[k]);
    assert forall|j: int| 0 <= j < q.len() implies #[trigger] q[j] < f.states.len() by {
        assert(q[j] == p[j]);
    }
    assert forall|j: int| 0 <= j < q.len() - 1 implies has_arc_to(f, #[trigger] q[j], q[j + 1]) by {
        assert(q[j] == p[j]);
        assert(q[j + 1] == p[j + 1]);
        assert(has_arc_to(f, p[j], p[j + 1]));
    }
    assert(is_path_between(f, q, src, p[k]));
}

/// A suffix of a path is a path from its first state.
pub proof fn lemma_path_suffix<WV>(f: FstV<WV>, p: Seq<StateId>, src: StateId, dst: StateId, k: int)
    requires
        is_path_between(f, p, src, dst),
        0 <= k < p.len(),
    ensures
        reachable_in(f, p[k], dst),
{
    let q = p.skip(k);
    assert(q[0] == p[k]);
    assert(q.last() == p.last());
    assert forall|j: int| 0 <= j < q.len() implies #[trigger] q[j] < f.states.len() by {
        assert(q[j] == p[j + k]);
    }
    assert forall|j: int| 0 <= j < q.len() - 1 implies has_arc_to(f, #[trigger] q[j], q[j + 1]) by {
        assert(q[j] == p[j + k]);
        assert(q[j + 1] == p[j + k + 1]);
        assert(has_arc_to(f, p[j + k], p[j + k + 1]));
    }
    assert(is_path_between(f, q, p[k], dst));
}

/// Every entry is one of the three traversal colors.
pub open spec fn colors_valid(colors: Seq<u8>) -> bool {
    forall|t: int|
        0 <= t < colors.len() ==> #[trigger] colors[t] == WHITE || colors[t] == GREY || colors[t]
            == BLACK
}

/// The colors are closed under arcs from finished states: every arc of a
/// black state leads to a discovered state.
pub open spec fn black_closed<WV>(f: FstV<WV>, colors: Seq<u8>) -> bool {
    forall|t: int, j: int|
        0 <= t < f.states.len() && colors[t] == BLACK && 0 <= j < f.states[t].arcs.len()
            ==> colors[(#[trigger] f.states[t].arcs[j]).nextstate as int] != WHITE
}

/// Walking a path from a discovered state through fully-explored colors
/// keeps every state of the path discovered.
pub proof fn lemma_path_stays_marked<WV>(
    f: FstV<WV>,
    colors: Seq<u8>,
    p: Seq<StateId>,
    src: StateId,
    dst: StateId,
)
    requires
        colors.len() == f.states.len(),
        f.wf(),
        is_path_between(f, p, src, dst),
        colors[src as int] != WHITE,
        black_closed(f, colors),
        colors_valid(colors),
        forall|t: int| 0 <= t < colors.len() ==> #[trigger] colors[t] != GREY,
    ensures
        colors[dst as int] != WHITE,
    decreases p.len(),
{
    if p.len() > 1 {
        let q = p.drop_last();
        let mid = p[p.len() - 2];
        assert forall|k: int| 0 <= k < q.len() - 1 implies has_arc_to(f, #[trigger] q[k], q[k + 1]) by {
            assert(q[k] == p[k]);
            assert(q[k + 1] == p[k + 1]);
            assert(has_arc_to(f, p[k], p[k + 1]));
        }
        assert(is_path_between(f, q, src, mid));
        lemma_path_stays_marked(f, colors, q, src, mid);
        assert(has_arc_to(f, p[p.len() - 2], p[p.len() - 1]));
        let i = choose|i: int|
            0 <= i < f.states[mid as int].arcs.len() && (#[trigger] f.states[mid as int].arcs[i]).nextstate
                == dst;
        assert(colors[mid as int] == BLACK);
        assert(colors[f.states[mid as int].arcs[i].nextstate as int] != WHITE);
    }
}

/// Explores the subtree rooted at the white state `s`, reporting every
/// event to the visitor.
fn dfs_rec<W: Semiring>(
    fst: &VectorFst<W>,
    v: &mut SccVisitor,
    colors: &mut Vec<u8>,
    s: StateId,
    root: StateId,
    parent: Option<StateId>,
)
    requires
        fst@.wf(),
        old(v).inv(),
        old(v).n() == fst@.states.len(),
        coupled(old(colors)@, old(v)),
        greys_on_stack(old(colors)@, old(v)),
        s < old(v).n(),
        root < old(v).n(),
        parent matches Some(p) ==> p < old(v).n() && old(v).dfnumber@[p as int] != -1,
        old(colors)@[s as int] == WHITE,
        reachable_in(fst@, root, s),
        colors_valid(old(colors)@),
        black_closed(fst@, old(colors)@),
    ensures
        final(v).inv(),
        final(v).n() == old(v).n(),
        final(colors)@.len() == old(colors)@.len(),
        coupled(final(colors)@, final(v)),
        greys_on_stack(final(colors)@, final(v)),
        final(colors)@[s as int] == BLACK,
        forall|t: int|
            0 <= t < final(colors)@.len() && old(colors)@[t] != WHITE
                ==> #[trigger] final(colors)@[t] == old(colors)@[t],
        forall|t: int|
            0 <= t < final(colors)@.len() && #[trigger] final(colors)@[t] == GREY
                ==> old(colors)@[t] == GREY,
        forall|t: int|
            0 <= t < old(v).n() && old(v).dfnumber@[t] != -1 ==> #[trigger] final(v).dfnumber@[t]
                == old(v).dfnumber@[t],
        final(v).scc_stack@.len() >= old(v).scc_stack@.len(),
        final(v).scc_stack@.take(old(v).scc_stack@.len() as int) == old(v).scc_stack@,
        final(v).dfnumber@[s as int] == old(v).nstates as i32,
        final(v).lowlink@[s as int] <= final(v).dfnumber@[s as int],
        final(v).lowlink@[s as int] as int >= entry_bound(
            old(v).nstates as int,
            old(v).dfnumber@,
            old(v).scc_stack@,
        ),
        forall|t: int|
            0 <= t < old(v).n() ==> #[trigger] final(v).lowlink@[t] as int >= vstd::math::min(
                old(v).lowlink@[t] as int,
                entry_bound(old(v).nstates as int, old(v).dfnumber@, old(v).scc_stack@),
            ),
        forall|t: int|
            0 <= t < old(v).n() && old(v).dfnumber@[t] != -1 ==> #[trigger] final(v).lowlink@[t]
                <= old(v).lowlink@[t],
        forall|k: int|
            old(v).scc_stack@.len() <= k < final(v).scc_stack@.len() ==> final(v).dfnumber@[
                #[trigger] final(v).scc_stack@[k] as int
            ] >= old(v).nstates,
        (final(v).lowlink@[s as int] == final(v).dfnumber@[s as int]) ==> final(v).scc_stack@
            == old(v).scc_stack@,
        final(v).nstates >= old(v).nstates + 1,
        final(v).nscc >= old(v).nscc,
        colors_valid(final(colors)@),
        black_closed(fst@, final(colors)@),
        forall|t: int|
            0 <= t < old(v).n() && old(colors)@[t] == WHITE && #[trigger] final(colors)@[t]
                != WHITE ==> reachable_in(fst@, root, t as StateId),
        (match (final(v).access, old(v).access) {
            (Some(a1), Some(a0)) => forall|t: int|
                0 <= t < old(v).n() ==> #[trigger] a1@[t] == (if old(colors)@[t] == WHITE
                    && final(colors)@[t] != WHITE {
                    root as i32 == old(v).start
                } else {
                    a0@[t]
                }),
            (None, None) => true,
            _ => false,
        }),
        (final(v).scc is Some <==> old(v).scc is Some),
        (final(v).access is Some <==> old(v).access is Some),
        final(v).start == old(v).start,
    decreases count_white(colors@),
{
    let ghost n = old(v).n() as int;
    let ghost entry_colors = colors@;
    let ghost entry_stack = old(v).scc_stack@;
    let ghost entry_len = entry_stack.len() as int;
    let ghost entry_dfn = old(v).dfnumber@;
    let ghost bnd = entry_bound(old(v).nstates as int, entry_dfn, entry_stack);
    proof {
        lemma_count_white_le(entry_colors);
        lemma_stack_min_lb(entry_dfn, entry_stack, -1);
    }
    let c0 = v.init_state(s, root);
    colors[s] = GREY;
    proof {
        lemma_count_white_update(entry_colors, s as int, GREY);
    }
    let narcs = fst.states[s].arcs.len();
    let mut i: usize = 0;
    if c0 {
        while i < narcs
            invariant
                fst@.wf(),
                n == fst@.states.len(),
                s < n,
                root < n,
                parent matches Some(p) ==> p < n,
                narcs == fst@.states[s as int].arcs.len(),
                i <= narcs,
                old(v).inv(),
                v.inv(),
                v.n() == n,
                colors@.len() == n,
                coupled(colors@, v),
                greys_on_stack(colors@, v),
                colors@[s as int] == GREY,
                colors_valid(colors@),
                black_closed(fst@, colors@),
                reachable_in(fst@, root, s),
                forall|j: int|
                    0 <= j < i ==> colors@[(#[trigger] fst@.states[s as int].arcs[j]).nextstate as int]
                        != WHITE,
                forall|t: int|
                    0 <= t < n && entry_colors[t] == WHITE && #[trigger] colors@[t] != WHITE
                        ==> reachable_in(fst@, root, t as StateId),
                (match (v.access, old(v).access) {
                    (Some(a1), Some(a0)) => forall|t: int|
                        0 <= t < n ==> #[trigger] a1@[t] == (if entry_colors[t] == WHITE
                            && colors@[t] != WHITE {
                            root as i32 == old(v).start
                        } else {
                            a0@[t]
                        }),
                    (None, None) => true,
                    _ => false,
                }),
                entry_colors == old(colors)@,
                entry_stack == old(v).scc_stack@,
                entry_colors.len() == n,
                entry_colors[s as int] == WHITE,
                count_white(colors@) <= count_white(entry_colors) - 1,
                forall|t: int|
                    0 <= t < n && entry_colors[t] != WHITE ==> #[trigger] colors@[t]
                        == entry_colors[t],
                forall|t: int|
                    0 <= t < n && #[trigger] colors@[t] == GREY ==> (entry_colors[t] == GREY || t
                        == s as int),
                forall|t: int|
                    0 <= t < n && old(v).dfnumber@[t] != -1 ==> #[trigger] v.dfnumber@[t] == old(
                        v,
                    ).dfnumber@[t],
                entry_len == entry_stack.len() as int,
                entry_dfn == old(v).dfnumber@,
                bnd == entry_bound(old(v).nstates as int, entry_dfn, entry_stack),
                bnd <= old(v).nstates,
                entry_len + 1 <= v.scc_stack@.len(),
                v.scc_stack@.take(entry_len + 1) == entry_stack.push(s),
                v.nstates >= old(v).nstates + 1,
                v.dfnumber@[s as int] == old(v).nstates as i32,
                v.lowlink@[s as int] <= v.dfnumber@[s as int],
                v.lowlink@[s as int] as int >= bnd,
                forall|t: int|
                    0 <= t < n ==> #[trigger] v.lowlink@[t] as int >= vstd::math::min(
                        old(v).lowlink@[t] as int,
                        bnd,
                    ),
                forall|t: int|
                    0 <= t < n && old(v).dfnumber@[t] != -1 ==> #[trigger] v.lowlink@[t] <= old(
                        v,
                    ).lowlink@[t],
                forall|k: int|
                    entry_len <= k < v.scc_stack@.len() ==> v.dfnumber@[#[trigger] v.scc_stack@[k] as int]
                        >= old(v).nstates,
                v.nscc >= old(v).nscc,
                (v.scc is Some <==> old(v).scc is Some),
                (v.access is Some <==> old(v).access is Some),
                v.start == old(v).start,
            decreases narcs - i,
        {
            let arc = &fst.states[s].arcs[i];
            let t = arc.nextstate;
            proof {
                assert(fst@.states[s as int].arcs[i as int] == fst.states@[s as int].arcs@[i as int]@);
                assert(arc@.nextstate < n);
            }
            let ct = colors[t];
            proof {
                let tt = arc@.nextstate as int;
                if v.onstack@[tt] {
                    assert(v.scc_stack@.contains(arc@.nextstate));
                    let kk = choose|kk: int|
                        0 <= kk < v.scc_stack@.len() && v.scc_stack@[kk] == arc@.nextstate;
                    if kk < entry_len {
                        assert(v.scc_stack@.take(entry_len + 1)[kk] == entry_stack.push(s)[kk]);
                        assert(v.scc_stack@[kk] == entry_stack[kk]);
                        lemma_stack_min_le(entry_dfn, entry_stack, kk);
                        assert(old(v).dfnumber@[entry_stack[kk] as int] >= 0);
                        assert(v.dfnumber@[tt] == entry_dfn[tt]);
                        assert(v.dfnumber@[tt] >= stack_min(entry_dfn, entry_stack));
                    } else if kk == entry_len {
                        assert(v.scc_stack@.take(entry_len + 1)[kk] == s);
                        assert(v.dfnumber@[tt] == old(v).nstates as i32);
                    } else {
                        assert(v.dfnumber@[tt] >= old(v).nstates);
                    }
                    assert(v.dfnumber@[tt] >= bnd);
                }
            }
            if ct == WHITE {
                v.tree_arc(s, arc);
                let ghost pre_colors = colors@;
                let ghost pre_v = *v;
                proof {
                    lemma_count_white_le(colors@);
                    lemma_reachable_step(fst@, root, s, i as int);
                }
                dfs_rec(fst, v, colors, t, root, Some(s));
                proof {
                    let stack_c = pre_v.scc_stack@;
                    let bnd_c = entry_bound(pre_v.nstates as int, pre_v.dfnumber@, stack_c);
                    assert forall|k: int|
                        0 <= k < stack_c.len() implies pre_v.dfnumber@[
                        #[trigger] stack_c[k] as int] >= bnd by {
                        if k < entry_len {
                            assert(pre_v.scc_stack@.take(entry_len + 1)[k] == entry_stack.push(
                                s,
                            )[k]);
                            assert(stack_c[k] == entry_stack[k]);
                            lemma_stack_min_le(entry_dfn, entry_stack, k);
                            assert(old(v).dfnumber@[entry_stack[k] as int] >= 0);
                            assert(pre_v.dfnumber@[stack_c[k] as int] == entry_dfn[stack_c[k] as int]);
                        } else if k == entry_len {
                            assert(pre_v.scc_stack@.take(entry_len + 1)[k] == s);
                            assert(stack_c[k] == s);
                        } else {
                            assert(pre_v.dfnumber@[stack_c[k] as int] >= old(v).nstates);
                        }
                    }
                    lemma_stack_min_lb(pre_v.dfnumber@, stack_c, bnd);
                    assert(bnd_c >= bnd);
                    assert forall|t2: int|
                        0 <= t2 < n implies #[trigger] v.lowlink@[t2] as int >= vstd::math::min(
                        old(v).lowlink@[t2] as int,
                        bnd,
                    ) by {
                        assert(v.lowlink@[t2] as int >= vstd::math::min(
                            pre_v.lowlink@[t2] as int,
                            bnd_c,
                        ));
                        assert(pre_v.lowlink@[t2] as int >= vstd::math::min(
                            old(v).lowlink@[t2] as int,
                            bnd,
                        ));
                    }
                    assert(v.lowlink@[s as int] as int >= vstd::math::min(
                        pre_v.lowlink@[s as int] as int,
                        bnd_c,
                    ));
                    assert(v.lowlink@[s as int] <= pre_v.lowlink@[s as int]);
                    assert forall|k: int|
                        entry_len <= k < v.scc_stack@.len() implies v.dfnumber@[
                        #[trigger] v.scc_stack@[k] as int] >= old(v).nstates by {
                        if k < stack_c.len() as int {
                            assert(v.scc_stack@.take(stack_c.len() as int)[k] == stack_c[k]);
                            assert(v.scc_stack@[k] == stack_c[k]);
                            assert(pre_v.dfnumber@[stack_c[k] as int] >= old(v).nstates);
                            assert(pre_v.dfnumber@[stack_c[k] as int] != -1);
                            assert(v.dfnumber@[stack_c[k] as int] == pre_v.dfnumber@[stack_c[k] as int]);
                        } else {
                            assert(v.dfnumber@[v.scc_stack@[k] as int] >= pre_v.nstates);
                        }
                    }
                    lemma_count_white_subset(pre_colors, colors@);
                    assert(colors@[s as int] == GREY);
                    assert(v.scc_stack@.take(pre_v.scc_stack@.len() as int)
                        == pre_v.scc_stack@);
                    assert forall|k: int| 0 <= k < entry_len + 1 implies #[trigger] v.scc_stack@[k]
                        == entry_stack.push(s)[k] by {
                        assert(pre_v.scc_stack@[k] == entry_stack.push(s)[k]);
                        assert(v.scc_stack@.take(pre_v.scc_stack@.len() as int)[k]
                            == v.scc_stack@[k]);
                    }
                    assert(v.scc_stack@.take(entry_len + 1) =~= entry_stack.push(s));
                }
            } else if ct == GREY {
                v.back_arc(s, arc);
            } else {
                v.forward_or_cross_arc(s, arc);
            }
            i = i + 1;
        }
    }
    colors[s] = BLACK;
    let ghost before_finish = *v;
    proof {
        assert(v.onstack@[s as int]) by {
            assert(v.scc_stack@.take(entry_len + 1)[entry_len] == s);
            assert(v.scc_stack@[entry_len] == s);
            assert(v.scc_stack@.contains(s));
        }
    }
    v.finish_state(fst, s, parent);
    proof {
        let pre = before_finish;
        let j = crate::algorithms::visitors::scc_visitors::stack_pos(pre.scc_stack@, s);
        crate::algorithms::visitors::scc_visitors::lemma_stack_pos(pre.scc_stack@, s);
        // s sits exactly at the end of the entry stack: entries above it
        // have strictly larger discovery numbers, so they differ from s.
        assert(pre.scc_stack@[entry_len] == s) by {
            assert(pre.scc_stack@.take(entry_len + 1)[entry_len] == s);
        }
        assert(j == entry_len) by {
            if j > entry_len {
                assert(pre.dfnumber@[pre.scc_stack@[entry_len] as int] < pre.dfnumber@[
                    pre.scc_stack@[j] as int]);
            }
        }
        let root_case = pre.dfnumber@[s as int] == pre.lowlink@[s as int];
        if root_case {
            assert(v.scc_stack@ == pre.scc_stack@.take(entry_len));
            assert forall|k: int| 0 <= k < entry_len implies #[trigger] v.scc_stack@[k]
                == entry_stack[k] by {
                assert(pre.scc_stack@.take(entry_len + 1)[k] == entry_stack.push(s)[k]);
            }
            assert(v.scc_stack@ =~= entry_stack);
            assert(v.scc_stack@.take(entry_len) =~= entry_stack);
        } else {
            assert(v.scc_stack@ == pre.scc_stack@);
            assert forall|k: int| 0 <= k < entry_len implies #[trigger] v.scc_stack@.take(
                entry_len,
            )[k] == entry_stack[k] by {
                assert(pre.scc_stack@.take(entry_len + 1)[k] == entry_stack.push(s)[k]);
            }
            assert(v.scc_stack@.take(entry_len) =~= entry_stack);
        }
        // Grey states keep their stack membership: a popped state has a
        // discovery number at least as large as s's, while grey states
        // other than s were discovered before s.
        assert forall|t: int|
            0 <= t < colors@.len() && #[trigger] colors@[t] == GREY implies v.onstack@[t] by {
            assert(entry_colors[t] == GREY);
            assert(pre.onstack@[t]);
            if root_case {
                let popped = pre.scc_stack@.skip(j);
                if popped.contains(t as StateId) {
                    let k2 = choose|k2: int| 0 <= k2 < popped.len() && popped[k2] == t as StateId;
                    assert(pre.scc_stack@[j + k2] == t as StateId);
                    // t was on the stack when this call began, below s.
                    assert(old(v).onstack@[t]);
                    assert(old(v).scc_stack@.contains(t as StateId));
                    let k0 = choose|k0: int|
                        0 <= k0 < entry_stack.len() && entry_stack[k0] == t as StateId;
                    assert(pre.scc_stack@.take(entry_len + 1)[k0] == entry_stack[k0]);
                    assert(pre.scc_stack@[k0] == t as StateId);
                    if k0 < j + k2 {
                        assert(pre.dfnumber@[pre.scc_stack@[k0] as int] < pre.dfnumber@[
                            pre.scc_stack@[j + k2] as int]);
                        assert(false);
                    }
                    assert(false);
                }
            }
        }
        // Lowlink bookkeeping across the finish: only the parent's lowlink
        // can change, and only downwards, towards a value this subtree
        // already bounded.
        match parent {
            Some(p) => {
                assert(old(v).dfnumber@[p as int] != -1);
                assert(old(v).dfnumber@[s as int] == -1);
                assert(p != s);
                assert(pre.lowlink@[s as int] as int >= bnd);
                assert forall|t2: int|
                    0 <= t2 < n implies #[trigger] v.lowlink@[t2] as int >= vstd::math::min(
                    old(v).lowlink@[t2] as int,
                    bnd,
                ) by {
                    assert(pre.lowlink@[t2] as int >= vstd::math::min(
                        old(v).lowlink@[t2] as int,
                        bnd,
                    ));
                }
            },
            None => {},
        }
        assert(v.lowlink@[s as int] == pre.lowlink@[s as int]);
        assert(v.dfnumber@ == pre.dfnumber@);
        // A subtree whose root keeps its own discovery number as lowlink
        // pops its entire component: the stack returns to its entry state.
        if v.lowlink@[s as int] == v.dfnumber@[s as int] {
            assert(root_case);
            assert(v.scc_stack@ == entry_stack);
        }
        assert forall|k: int|
            entry_len <= k < v.scc_stack@.len() implies v.dfnumber@[
            #[trigger] v.scc_stack@[k] as int] >= old(v).nstates by {
            if root_case {
                assert(v.scc_stack@ == entry_stack);
                assert(false);
            } else {
                assert(v.scc_stack@ == pre.scc_stack@);
                assert(pre.dfnumber@[pre.scc_stack@[k] as int] >= old(v).nstates);
            }
        }
    }
}

/// Runs a depth-first traversal of `fst`, driving the visitor.  The
/// traversal starts at the start state; when `access_only` is false it then
/// restarts from every remaining undiscovered state, so that every state is
/// visited.  An FST without a start state is not traversed at all.
pub fn dfs_visit<W: Semiring>(fst: &VectorFst<W>, visitor: &mut SccVisitor, access_only: bool)
    requires
        fst@.wf(),
        old(visitor).inv(),
        old(visitor).n() == fst@.states.len(),
        old(visitor).fresh(),
        old(visitor).start as int == (match fst@.start {
            Some(st) => st as int,
            None => NO_STATE_ID as int,
        }),
    ensures
        final(visitor).n() == old(visitor).n(),
        final(visitor).coaccess@.len() == final(visitor).n(),
        (final(visitor).scc is Some <==> old(visitor).scc is Some),
        (final(visitor).access is Some <==> old(visitor).access is Some),
        (final(visitor).scc matches Some(v) ==> v@.len() == final(visitor).n()),
        (final(visitor).access matches Some(v) ==> v@.len() == final(visitor).n()),
        final(visitor).start == old(visitor).start,
        (!access_only && fst@.start is Some) ==> (forall|t: int|
            0 <= t < final(visitor).n() ==> #[trigger] final(visitor).dfnumber@[t] != -1),
        (!access_only && fst@.start is Some) ==> (match final(visitor).scc {
            Some(sv) => 0 < final(visitor).nscc && (forall|t: int|
                0 <= t < final(visitor).n() ==> 0 <= #[trigger] sv@[t] < final(visitor).nscc),
            None => true,
        }),
        (match final(visitor).access {
            Some(a) => forall|t: int|
                0 <= t < final(visitor).n() ==> (#[trigger] a@[t] <==> (fst@.start matches Some(st)
                    && reachable_in(fst@, st, t as StateId))),
            None => true,
        }),
{
    let n = fst.num_states();
    let mut colors: Vec<u8> = filled_u8(n, WHITE);
    match fst.start() {
        Some(root0) => {
            let ghost pre0 = *visitor;
            proof {
                lemma_reachable_refl(fst@, root0);
            }
            dfs_rec(fst, visitor, &mut colors, root0, root0, None);
            proof {
                assert(stack_min(pre0.dfnumber@, pre0.scc_stack@) == i32::MAX as int + 1);
                assert(entry_bound(pre0.nstates as int, pre0.dfnumber@, pre0.scc_stack@)
                    == pre0.nstates as int);
                assert(visitor.lowlink@[root0 as int] == visitor.dfnumber@[root0 as int]);
                assert(visitor.scc_stack@ == pre0.scc_stack@);
                assert(visitor.scc_stack@.len() == 0);
                // After the start state's subtree: the discovered states are
                // exactly those reachable from the start, and the access
                // marks agree with them.
                assert(forall|t: int| 0 <= t < n ==> #[trigger] colors@[t] != GREY);
                assert forall|t: int|
                    0 <= t < n && reachable_in(fst@, root0, t as StateId) implies #[trigger] colors@[t]
                    != WHITE by {
                    let p = choose|p: Seq<StateId>| #[trigger] is_path_between(
                        fst@,
                        p,
                        root0,
                        t as StateId,
                    );
                    lemma_path_stays_marked(fst@, colors@, p, root0, t as StateId);
                }
                if visitor.access is Some {
                    let a = visitor.access.unwrap();
                    let a0 = pre0.access.unwrap();
                    assert forall|t: int|
                        0 <= t < n implies (#[trigger] a@[t] <==> reachable_in(
                        fst@,
                        root0,
                        t as StateId,
                    )) by {
                        assert(!a0@[t]);
                        assert(a@[t] == (if colors@[t] != WHITE {
                            root0 as i32 == pre0.start
                        } else {
                            false
                        }));
                    }
                }
            }
            if !access_only {
                let mut s: usize = 0;
                while s < n
                    invariant
                        fst@.wf(),
                        n == fst@.states.len(),
                        visitor.inv(),
                        visitor.n() == n,
                        colors@.len() == n,
                        coupled(colors@, visitor),
                        greys_on_stack(colors@, visitor),
                        colors_valid(colors@),
                        black_closed(fst@, colors@),
                        fst@.start == Some(root0),
                        root0 < n,
                        visitor.start == pre0.start,
                        pre0.start as int == root0 as int,
                        forall|t: int|
                            0 <= t < n && reachable_in(fst@, root0, t as StateId)
                                ==> #[trigger] colors@[t] != WHITE,
                        (match (visitor.access, pre0.access) {
                            (Some(a), Some(a0)) => forall|t: int|
                                0 <= t < n ==> (#[trigger] a@[t] <==> reachable_in(
                                    fst@,
                                    root0,
                                    t as StateId,
                                )),
                            (None, None) => true,
                            _ => false,
                        }),
                        (visitor.access is Some <==> pre0.access is Some),
                        s <= n,
                        visitor.scc_stack@.len() == 0,
                        forall|t: int| 0 <= t < s ==> #[trigger] colors@[t] != WHITE,
                        (visitor.scc is Some <==> old(visitor).scc is Some),
                        (visitor.access is Some <==> old(visitor).access is Some),
                        visitor.start == old(visitor).start,
                    decreases n - s,
                {
                    if colors[s] == WHITE {
                        let ghost prev = *visitor;
                        proof {
                            lemma_reachable_refl(fst@, s);
                        }
                        let ghost prev_colors = colors@;
                        dfs_rec(fst, visitor, &mut colors, s, s, None);
                        proof {
                            assert(stack_min(prev.dfnumber@, prev.scc_stack@) == i32::MAX as int
                                + 1);
                            assert(entry_bound(prev.nstates as int, prev.dfnumber@, prev.scc_stack@)
                                == prev.nstates as int);
                            assert(visitor.lowlink@[s as int] == visitor.dfnumber@[s as int]);
                            assert(visitor.scc_stack@ == prev.scc_stack@);
                            // This tree is rooted away from the start state, so
                            // its freshly discovered states are unreachable from
                            // the start and their access marks stay cleared.
                            lemma_reachable_refl(fst@, root0);
                            assert(prev_colors[root0 as int] != WHITE);
                            assert(s != root0);
                            if visitor.access is Some {
                                let a1 = visitor.access.unwrap();
                                let am = prev.access.unwrap();
                                assert forall|t: int|
                                    0 <= t < n implies (#[trigger] a1@[t] <==> reachable_in(
                                    fst@,
                                    root0,
                                    t as StateId,
                                )) by {
                                    if prev_colors[t] == WHITE && colors@[t] != WHITE {
                                        assert(a1@[t] == (s as i32 == prev.start));
                                        assert(s as i32 != prev.start);
                                        if reachable_in(fst@, root0, t as StateId) {
                                            assert(prev_colors[t] != WHITE);
                                            assert(false);
                                        }
                                    } else {
                                        assert(a1@[t] == am@[t]);
                                    }
                                }
                            }
                        }
                    }
                    s = s + 1;
                }
                proof {
                    assert forall|t: int| 0 <= t < n implies #[trigger] visitor.dfnumber@[t]
                        != -1 by {
                        assert(colors@[t] != WHITE);
                    }
                    if visitor.scc is Some {
                        let sv = visitor.scc.unwrap();
                        assert forall|t: int| 0 <= t < n implies 0 <= #[trigger] sv@[t]
                            < visitor.nscc by {
                            assert(!visitor.scc_stack@.contains(t as StateId));
                            assert(!visitor.onstack@[t]);
                            assert(visitor.dfnumber@[t] != -1);
                        }
                        if n > 0 {
                            assert(0 <= sv@[0] < visitor.nscc);
                        }
                    }
                }
            }
        },
        None => {},
    }
    visitor.finish_visit();
}

} // verus!
