//! Tests of connect, union and the SCC visitor.

use rustfst::algorithms::connect::connect;
use rustfst::algorithms::dfs_visit::dfs_visit;
use rustfst::algorithms::union::union;
use rustfst::algorithms::visitors::scc_visitors::SccVisitor;
use rustfst::arc::Arc;
use rustfst::fst_impls::vector_fst::VectorFst;
use rustfst::fst_traits::paths_iterator::StructPathsIterator;
use rustfst::semirings::integer_weight::IntegerWeight;
use rustfst::semirings::semiring::Semiring;

const FUEL: usize = 10_000;

fn acceptor(labels: &[usize]) -> VectorFst<IntegerWeight> {
    let mut fst: VectorFst<IntegerWeight> = VectorFst::new();
    let mut prev = fst.add_state();
    fst.set_start(prev).unwrap();
    for &l in labels {
        let next = fst.add_state();
        fst.add_arc(prev, Arc::new(l, l, IntegerWeight::one(), next)).unwrap();
        prev = next;
    }
    fst.set_final(prev, IntegerWeight::one()).unwrap();
    fst
}

fn collect_keys(fst: &VectorFst<IntegerWeight>) -> Vec<(Vec<usize>, Vec<usize>, u64)> {
    let mut it = StructPathsIterator::new(fst);
    let mut out = Vec::new();
    while let Some(p) = it.next(fst, FUEL).unwrap() {
        out.push((p.ilabels.clone(), p.olabels.clone(), *p.weight.value()));
    }
    out.sort();
    out
}

#[test]
fn test_connect_generic() {
    // For several FSTs, connect must yield exactly the expected trimmed FST.
    let fst = acceptor(&[2, 3]);

    let mut no_connected_fst = fst.clone();
    no_connected_fst.add_state();

    let mut connected_fst = no_connected_fst.clone();
    connect(&mut connected_fst).unwrap();
    assert_eq!(connected_fst, fst, "Connect test fail for fst : acceptor [2, 3]");

    // A state reachable from the start but unable to reach a final state
    // is removed together with its incoming arc.
    let mut with_dead_end = fst.clone();
    let dead = with_dead_end.add_state();
    with_dead_end.add_arc(0, Arc::new(9, 9, IntegerWeight::one(), dead)).unwrap();
    let mut trimmed = with_dead_end.clone();
    connect(&mut trimmed).unwrap();
    assert_eq!(trimmed, fst, "Connect test fail for fst : acceptor with dead end");
}

#[test]
fn connect_drops_an_orphan_state() {
    // Linear FST s0 -> s1 -> s2 -> s3 plus one extra state with no
    // incoming arc: after connect, the states are exactly the four chain
    // states and the arc set is unchanged.
    let mut fst: VectorFst<IntegerWeight> = VectorFst::new();
    let s0 = fst.add_state();
    let s1 = fst.add_state();
    let s2 = fst.add_state();
    let s3 = fst.add_state();
    fst.set_start(s0).unwrap();
    fst.add_arc(s0, Arc::new(1, 1, IntegerWeight::new(1), s1)).unwrap();
    fst.add_arc(s1, Arc::new(2, 2, IntegerWeight::new(1), s2)).unwrap();
    fst.add_arc(s2, Arc::new(3, 3, IntegerWeight::new(1), s3)).unwrap();
    fst.set_final(s3, IntegerWeight::new(1)).unwrap();

    let reference = fst.clone();
    fst.add_state();  // s4, no incoming arcs

    connect(&mut fst).unwrap();
    assert_eq!(fst.num_states(), 4);
    assert_eq!(fst, reference);
}

#[test]
fn connect_is_idempotent_on_examples() {
    let mut fst = acceptor(&[2, 3]);
    fst.add_state();
    let dead = fst.add_state();
    fst.add_arc(0, Arc::new(9, 9, IntegerWeight::one(), dead)).unwrap();

    let mut once = fst.clone();
    connect(&mut once).unwrap();
    let mut twice = once.clone();
    connect(&mut twice).unwrap();
    assert_eq!(once, twice);
}

#[test]
fn connect_preserves_the_accepted_paths() {
    // Dead branches interleaved with the useful states, so trimming
    // renumbers every surviving state; the accepted paths are unchanged.
    let mut fst: VectorFst<IntegerWeight> = VectorFst::new();
    let d0 = fst.add_state();
    let s0 = fst.add_state();
    let d1 = fst.add_state();
    let s1 = fst.add_state();
    let d2 = fst.add_state();
    let s2 = fst.add_state();
    fst.set_start(s0).unwrap();
    fst.add_arc(s0, Arc::new(1, 10, IntegerWeight::new(2), s1)).unwrap();
    fst.add_arc(s0, Arc::new(2, 20, IntegerWeight::new(3), s2)).unwrap();
    fst.add_arc(s1, Arc::new(3, 30, IntegerWeight::new(5), s2)).unwrap();
    fst.add_arc(s0, Arc::new(9, 9, IntegerWeight::one(), d1)).unwrap();
    fst.add_arc(d1, Arc::new(9, 9, IntegerWeight::one(), d2)).unwrap();
    fst.add_arc(d0, Arc::new(9, 9, IntegerWeight::one(), s1)).unwrap();
    fst.set_final(s2, IntegerWeight::new(7)).unwrap();

    let before = collect_keys(&fst);
    connect(&mut fst).unwrap();
    assert_eq!(fst.num_states(), 3);
    let after = collect_keys(&fst);
    assert_eq!(before, after);
    assert_eq!(
        after,
        vec![
            (vec![1, 3], vec![10, 30], 2 * 5 * 7),
            (vec![2], vec![20], 3 * 7),
        ]
    );
}

#[test]
fn connect_empty_fst_removes_all_states() {
    let mut fst: VectorFst<IntegerWeight> = VectorFst::new();
    fst.add_state();
    fst.add_state();
    // no start state: nothing is accessible
    connect(&mut fst).unwrap();
    assert_eq!(fst.num_states(), 0);
}

#[test]
fn test_union_generic() {
    // The union of two FSTs accepts exactly the paths of both.
    let fst_1 = acceptor(&[1, 5]);
    let fst_2 = acceptor(&[8]);

    let mut paths_ref = collect_keys(&fst_1);
    paths_ref.extend(collect_keys(&fst_2));
    paths_ref.sort();

    let union_fst = union(&fst_1, &fst_2).unwrap();
    let paths = collect_keys(&union_fst);

    assert_eq!(paths, paths_ref, "Test failing for union between acceptors [1,5] and [8]");
}

#[test]
fn union_of_two_acceptors() {
    // A = acceptor([2,3]), B = acceptor([6,5]): the union accepts exactly
    // [2,3] and [6,5], with their original weights.
    let a = acceptor(&[2, 3]);
    let b = acceptor(&[6, 5]);
    let u = union(&a, &b).unwrap();

    let paths = collect_keys(&u);
    assert_eq!(
        paths,
        vec![(vec![2, 3], vec![2, 3], 1), (vec![6, 5], vec![6, 5], 1)]
    );
}

#[test]
fn union_structure() {
    let a = acceptor(&[2]);
    let b = acceptor(&[6]);
    let u = union(&a, &b).unwrap();
    // fresh start state, one shifted copy of each operand
    assert_eq!(u.num_states(), 1 + a.num_states() + b.num_states());
    assert_eq!(u.start(), Some(0));
    assert_eq!(u.states[0].arcs.len(), 2);
    assert_eq!(u.states[0].arcs[0].nextstate, 1);
    assert_eq!(u.states[0].arcs[1].nextstate, 1 + a.num_states());
    assert_eq!(u.states[0].arcs[0].ilabel, 0);
    assert_eq!(u.states[0].arcs[0].olabel, 0);
}

#[test]
fn scc_visitor_on_a_cycle() {
    // Two states in a cycle plus a separate final state: the cycle is one
    // component, the final state another.
    let mut fst: VectorFst<IntegerWeight> = VectorFst::new();
    let s0 = fst.add_state();
    let s1 = fst.add_state();
    let s2 = fst.add_state();
    fst.set_start(s0).unwrap();
    fst.add_arc(s0, Arc::new(1, 1, IntegerWeight::one(), s1)).unwrap();
    fst.add_arc(s1, Arc::new(2, 2, IntegerWeight::one(), s0)).unwrap();
    fst.add_arc(s1, Arc::new(3, 3, IntegerWeight::one(), s2)).unwrap();
    fst.set_final(s2, IntegerWeight::one()).unwrap();

    let mut visitor = SccVisitor::new(&fst, true, true);
    dfs_visit(&fst, &mut visitor, false);

    let scc = visitor.scc.as_ref().unwrap();
    assert_eq!(scc.len(), 3);
    // s0 and s1 are mutually reachable, s2 is alone
    assert_eq!(scc[0], scc[1]);
    assert_ne!(scc[0], scc[2]);
    assert_eq!(visitor.nscc, 2);
    // every identifier lies in [0, nscc)
    for &c in scc.iter() {
        assert!(0 <= c && c < visitor.nscc);
    }
    // after the final reversal the numbering is topological: a component
    // reachable from another has the larger identifier
    assert_eq!(scc[0], 0);
    assert_eq!(scc[2], 1);

    let access = visitor.access.as_ref().unwrap();
    assert!(access[0] && access[1] && access[2]);
    assert!(visitor.coaccess[0] && visitor.coaccess[1] && visitor.coaccess[2]);
}

#[test]
fn scc_visitor_access_only_marks_reachable_states() {
    let mut fst: VectorFst<IntegerWeight> = VectorFst::new();
    let s0 = fst.add_state();
    let s1 = fst.add_state();
    let orphan = fst.add_state();
    fst.set_start(s0).unwrap();
    fst.add_arc(s0, Arc::new(1, 1, IntegerWeight::one(), s1)).unwrap();
    fst.set_final(s1, IntegerWeight::one()).unwrap();

    let mut visitor = SccVisitor::new(&fst, false, true);
    dfs_visit(&fst, &mut visitor, true);

    let access = visitor.access.as_ref().unwrap();
    assert!(access[0] && access[1]);
    assert!(!access[orphan]);
    assert!(visitor.coaccess[0] && visitor.coaccess[1]);
    assert!(!visitor.coaccess[orphan]);
}

#[test]
fn union_with_empty_operand() {
    let a = acceptor(&[4]);
    let empty: VectorFst<IntegerWeight> = VectorFst::new();
    let u = union(&a, &empty).unwrap();
    let paths = collect_keys(&u);
    assert_eq!(paths, vec![(vec![4], vec![4], 1)]);

    // an FST with a start but no final state contributes no path
    let mut no_final: VectorFst<IntegerWeight> = VectorFst::new();
    let s = no_final.add_state();
    no_final.set_start(s).unwrap();
    let u2 = union(&a, &no_final).unwrap();
    let paths2 = collect_keys(&u2);
    assert_eq!(paths2, vec![(vec![4], vec![4], 1)]);
}

#[test]
fn paths_of_union_come_from_the_operands() {
    let a = acceptor(&[1, 2]);
    let b = acceptor(&[1, 2]);
    // equal operands: the union holds each path twice, as a multiset
    let u = union(&a, &b).unwrap();
    let paths = collect_keys(&u);
    assert_eq!(
        paths,
        vec![(vec![1, 2], vec![1, 2], 1), (vec![1, 2], vec![1, 2], 1)]
    );
}
