//! Tests of the vector FST data structure.

use rustfst::arc::Arc;
use rustfst::errors::FstError;
use rustfst::fst_impls::vector_fst::{VectorFst, VectorFstState};
use rustfst::semirings::integer_weight::IntegerWeight;
use rustfst::semirings::semiring::Semiring;

#[test]
fn add_state_set_start_set_final() {
    let mut fst: VectorFst<IntegerWeight> = VectorFst::new();
    assert_eq!(fst.num_states(), 0);
    assert_eq!(fst.start(), None);

    let s0 = fst.add_state();
    let s1 = fst.add_state();
    assert_eq!((s0, s1), (0, 1));
    assert_eq!(fst.num_states(), 2);

    fst.set_start(s0).unwrap();
    assert_eq!(fst.start(), Some(s0));
    assert_eq!(fst.set_start(7), Err(FstError::InvalidStateId(7)));

    fst.set_final(s1, IntegerWeight::new(4)).unwrap();
    assert!(fst.is_final(s1));
    assert!(!fst.is_final(s0));
    assert_eq!(fst.final_weight(s1), Some(&IntegerWeight::new(4)));
    assert_eq!(fst.final_weight(s0), None);
    assert_eq!(
        fst.set_final(9, IntegerWeight::one()),
        Err(FstError::InvalidStateId(9))
    );

    fst.delete_final_weight(s1).unwrap();
    assert!(!fst.is_final(s1));
}

#[test]
fn add_arc_checks_both_states() {
    let mut fst: VectorFst<IntegerWeight> = VectorFst::new();
    let s0 = fst.add_state();
    let s1 = fst.add_state();
    fst.add_arc(s0, Arc::new(1, 2, IntegerWeight::new(3), s1)).unwrap();
    assert_eq!(
        fst.add_arc(5, Arc::new(1, 2, IntegerWeight::new(3), s1)),
        Err(FstError::InvalidStateId(5))
    );
    assert_eq!(
        fst.add_arc(s0, Arc::new(1, 2, IntegerWeight::new(3), 5)),
        Err(FstError::InvalidStateId(5))
    );
    assert_eq!(fst.states[s0].num_arcs(), 1);
}

#[test]
fn state_epsilon_counts() {
    let mut st: VectorFstState<IntegerWeight> = VectorFstState::new();
    st.arcs.push(Arc::new(0, 1, IntegerWeight::one(), 0));
    st.arcs.push(Arc::new(0, 0, IntegerWeight::one(), 0));
    st.arcs.push(Arc::new(2, 0, IntegerWeight::one(), 0));
    assert_eq!(st.num_arcs(), 3);
    assert_eq!(st.num_input_epsilons(), 2);
    assert_eq!(st.num_output_epsilons(), 2);
}

#[test]
fn del_states_compacts_and_rewrites() {
    let mut fst: VectorFst<IntegerWeight> = VectorFst::new();
    let s0 = fst.add_state();
    let s1 = fst.add_state();
    let s2 = fst.add_state();
    fst.set_start(s0).unwrap();
    fst.add_arc(s0, Arc::new(1, 1, IntegerWeight::one(), s2)).unwrap();
    fst.add_arc(s0, Arc::new(2, 2, IntegerWeight::one(), s1)).unwrap();
    fst.set_final(s2, IntegerWeight::one()).unwrap();

    // delete the middle state: s2 becomes state 1, the arc to s1 is
    // dropped, the arc to s2 is rewritten
    fst.del_states(vec![s1]).unwrap();
    assert_eq!(fst.num_states(), 2);
    assert_eq!(fst.start(), Some(0));
    assert_eq!(fst.states[0].arcs.len(), 1);
    assert_eq!(fst.states[0].arcs[0].nextstate, 1);
    assert!(fst.states[1].final_weight.is_some());
}

#[test]
fn del_states_of_start_clears_start() {
    let mut fst: VectorFst<IntegerWeight> = VectorFst::new();
    let s0 = fst.add_state();
    fst.add_state();
    fst.set_start(s0).unwrap();
    fst.del_states(vec![s0]).unwrap();
    assert_eq!(fst.start(), None);
    assert_eq!(fst.num_states(), 1);
}

#[test]
fn del_states_rejects_unknown_state() {
    let mut fst: VectorFst<IntegerWeight> = VectorFst::new();
    fst.add_state();
    let r = fst.del_states(vec![3]);
    assert_eq!(r, Err(FstError::InvalidStateId(3)));
    assert_eq!(fst.num_states(), 1);
}

#[test]
fn add_fst_appends_a_shifted_copy() {
    let mut a: VectorFst<IntegerWeight> = VectorFst::new();
    let a0 = a.add_state();
    a.set_start(a0).unwrap();

    let mut b: VectorFst<IntegerWeight> = VectorFst::new();
    let b0 = b.add_state();
    let b1 = b.add_state();
    b.set_start(b0).unwrap();
    b.add_arc(b0, Arc::new(1, 1, IntegerWeight::new(2), b1)).unwrap();
    b.set_final(b1, IntegerWeight::new(3)).unwrap();

    let mapping = a.add_fst(&b).unwrap();
    assert_eq!(mapping, vec![1, 2]);
    assert_eq!(a.num_states(), 3);
    // the copy keeps its structure, with identifiers shifted
    assert_eq!(a.states[1].arcs.len(), 1);
    assert_eq!(a.states[1].arcs[0].nextstate, 2);
    assert_eq!(a.states[2].final_weight, Some(IntegerWeight::new(3)));
    // the start state of the copy is not taken over
    assert_eq!(a.start(), Some(a0));
}

#[test]
fn fst_equality_is_structural() {
    let mut a: VectorFst<IntegerWeight> = VectorFst::new();
    let s = a.add_state();
    a.set_start(s).unwrap();
    a.set_final(s, IntegerWeight::new(2)).unwrap();
    let b = a.clone();
    assert_eq!(a, b);

    let mut c = a.clone();
    c.set_final(s, IntegerWeight::new(3)).unwrap();
    assert_ne!(a, c);
}
