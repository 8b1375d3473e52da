//! Tests of relabeling and arc mapping.

use rustfst::algorithms::arc_map::{arc_map, ArcMapper, FinalArc, MapFinalAction};
use rustfst::algorithms::arc_mappers::invert_weight_mapper::{map_weight, InvertWeightMapper};
use rustfst::algorithms::relabel_pairs::relabel_pairs;
use rustfst::arc::Arc;
use rustfst::errors::FstError;
use rustfst::fst_impls::vector_fst::VectorFst;
use rustfst::semirings::integer_weight::IntegerWeight;
use rustfst::semirings::semiring::Semiring;
use rustfst::semirings::string_variant::StringWeightVariant;
use rustfst::semirings::string_weight::StringWeightLeft;

#[test]
fn test_projection_input_generic() {
    // Initial FST
    let mut fst = VectorFst::new();
    let s0 = fst.add_state();
    let s1 = fst.add_state();
    let s2 = fst.add_state();
    fst.set_start(s0).unwrap();

    fst.add_arc(s0, Arc::new(3, 18, IntegerWeight::new(10), s1)).unwrap();
    fst.add_arc(s0, Arc::new(2, 5, IntegerWeight::new(10), s1)).unwrap();
    fst.add_arc(s0, Arc::new(5, 9, IntegerWeight::new(18), s2)).unwrap();
    fst.add_arc(s0, Arc::new(5, 7, IntegerWeight::new(18), s2)).unwrap();
    fst.set_final(s1, IntegerWeight::new(31)).unwrap();
    fst.set_final(s2, IntegerWeight::new(45)).unwrap();

    // Expected FST
    let mut expected_fst = VectorFst::new();
    let s0 = expected_fst.add_state();
    let s1 = expected_fst.add_state();
    let s2 = expected_fst.add_state();
    expected_fst.set_start(s0).unwrap();

    expected_fst.add_arc(s0, Arc::new(45, 51, IntegerWeight::new(10), s1)).unwrap();
    expected_fst.add_arc(s0, Arc::new(2, 75, IntegerWeight::new(10), s1)).unwrap();
    expected_fst.add_arc(s0, Arc::new(75, 9, IntegerWeight::new(18), s2)).unwrap();
    expected_fst.add_arc(s0, Arc::new(75, 85, IntegerWeight::new(18), s2)).unwrap();
    expected_fst.set_final(s1, IntegerWeight::new(31)).unwrap();
    expected_fst.set_final(s2, IntegerWeight::new(45)).unwrap();

    let ipairs = vec![(3, 45), (5, 75)];
    let opairs = vec![(18, 51), (5, 75), (7, 85)];

    relabel_pairs(&mut fst, ipairs, opairs).unwrap();
    assert_eq!(fst, expected_fst);
}

#[test]
fn relabel_pairs_on_a_single_arc() {
    // FST with single arc (3, 18, 10, s1); ipairs [(3,45)] and opairs
    // [(18,51)] turn it into (45, 51, 10, s1); a missing pair leaves its
    // label unchanged.
    let mut fst = VectorFst::new();
    let s0 = fst.add_state();
    let s1 = fst.add_state();
    fst.set_start(s0).unwrap();
    fst.add_arc(s0, Arc::new(3, 18, IntegerWeight::new(10), s1)).unwrap();
    fst.set_final(s1, IntegerWeight::one()).unwrap();

    relabel_pairs(&mut fst, vec![(3, 45)], vec![(18, 51)]).unwrap();
    assert_eq!(fst.states[s0].arcs[0].ilabel, 45);
    assert_eq!(fst.states[s0].arcs[0].olabel, 51);
    assert_eq!(*fst.states[s0].arcs[0].weight.value(), 10);
    assert_eq!(fst.states[s0].arcs[0].nextstate, s1);

    // labels not mentioned by the pairs stay
    relabel_pairs(&mut fst, vec![(99, 1)], vec![(98, 2)]).unwrap();
    assert_eq!(fst.states[s0].arcs[0].ilabel, 45);
    assert_eq!(fst.states[s0].arcs[0].olabel, 51);
}

#[test]
fn relabel_pairs_duplicate_key_is_rejected() {
    let mut fst = VectorFst::new();
    let s0 = fst.add_state();
    fst.set_start(s0).unwrap();
    fst.set_final(s0, IntegerWeight::one()).unwrap();
    let reference = fst.clone();

    let r = relabel_pairs(&mut fst, vec![(3, 45), (3, 46)], vec![]);
    assert_eq!(r, Err(FstError::DuplicateRelabelPair(3)));
    assert_eq!(fst, reference);
}

#[test]
fn relabel_round_trip_restores_the_fst() {
    let mut fst = VectorFst::new();
    let s0 = fst.add_state();
    let s1 = fst.add_state();
    fst.set_start(s0).unwrap();
    fst.add_arc(s0, Arc::new(3, 18, IntegerWeight::new(10), s1)).unwrap();
    fst.add_arc(s0, Arc::new(5, 3, IntegerWeight::new(2), s1)).unwrap();
    fst.set_final(s1, IntegerWeight::one()).unwrap();
    let reference = fst.clone();

    let forward_i = vec![(3, 45), (5, 75)];
    let forward_o = vec![(18, 51), (3, 45)];
    let back_i = vec![(45, 3), (75, 5)];
    let back_o = vec![(51, 18), (45, 3)];

    relabel_pairs(&mut fst, forward_i, forward_o).unwrap();
    relabel_pairs(&mut fst, back_i, back_o).unwrap();
    assert_eq!(fst, reference);
}

/// Test mapper: rewrites the input label of every mapped final arc.
struct FinalIlabelMapper {}

impl ArcMapper<IntegerWeight> for FinalIlabelMapper {
    fn fa_spec() -> MapFinalAction {
        MapFinalAction::MapAllowSuperfinal
    }

    fn arc_map(&mut self, _arc: &mut Arc<IntegerWeight>) -> Result<(), FstError> {
        Ok(())
    }

    fn final_arc_map(&mut self, final_arc: &mut FinalArc<IntegerWeight>) -> Result<(), FstError> {
        final_arc.ilabel = 7;
        Ok(())
    }

    fn final_action(&self) -> MapFinalAction {
        MapFinalAction::MapAllowSuperfinal
    }
}

#[test]
fn arc_map_allow_superfinal_creates_superfinal_state() {
    // FST with final(s) = w; a mapper rewriting the final arc's input
    // label to 7 forces a superfinal state sf: s gets a new arc
    // (7, 0, w, sf), its final weight is cleared, and final(sf) = one.
    let mut fst: VectorFst<IntegerWeight> = VectorFst::new();
    let s = fst.add_state();
    fst.set_start(s).unwrap();
    fst.set_final(s, IntegerWeight::new(12)).unwrap();

    let mut mapper = FinalIlabelMapper {};
    arc_map(&mut fst, &mut mapper).unwrap();

    assert_eq!(fst.num_states(), 2);
    let sf = 1;
    assert_eq!(fst.states[s].arcs.len(), 1);
    assert_eq!(fst.states[s].arcs[0].ilabel, 7);
    assert_eq!(fst.states[s].arcs[0].olabel, 0);
    assert_eq!(*fst.states[s].arcs[0].weight.value(), 12);
    assert_eq!(fst.states[s].arcs[0].nextstate, sf);
    assert!(fst.states[s].final_weight.is_none());
    assert_eq!(fst.states[sf].final_weight, Some(IntegerWeight::one()));
}

/// Test mapper: doubles every arc weight, keeps final weights.
struct DoubleWeightMapper {}

impl ArcMapper<IntegerWeight> for DoubleWeightMapper {
    fn fa_spec() -> MapFinalAction {
        MapFinalAction::MapNoSuperfinal
    }

    fn arc_map(&mut self, arc: &mut Arc<IntegerWeight>) -> Result<(), FstError> {
        let v = *arc.weight.value();
        arc.weight.set_value(v * 2);
        Ok(())
    }

    fn final_arc_map(&mut self, final_arc: &mut FinalArc<IntegerWeight>) -> Result<(), FstError> {
        let v = *final_arc.weight.value();
        final_arc.weight.set_value(v * 2);
        Ok(())
    }

    fn final_action(&self) -> MapFinalAction {
        MapFinalAction::MapNoSuperfinal
    }
}

#[test]
fn arc_map_no_superfinal_preserves_counts() {
    // Under a NoSuperfinal mapper, the number of states and the number of
    // arcs of every state are preserved.
    let mut fst: VectorFst<IntegerWeight> = VectorFst::new();
    let s0 = fst.add_state();
    let s1 = fst.add_state();
    fst.set_start(s0).unwrap();
    fst.add_arc(s0, Arc::new(1, 1, IntegerWeight::new(3), s1)).unwrap();
    fst.add_arc(s0, Arc::new(2, 2, IntegerWeight::new(4), s0)).unwrap();
    fst.set_final(s1, IntegerWeight::new(5)).unwrap();

    let states_before = fst.num_states();
    let arcs_before: Vec<usize> = fst.states.iter().map(|st| st.arcs.len()).collect();

    let mut mapper = DoubleWeightMapper {};
    arc_map(&mut fst, &mut mapper).unwrap();

    assert_eq!(fst.num_states(), states_before);
    let arcs_after: Vec<usize> = fst.states.iter().map(|st| st.arcs.len()).collect();
    assert_eq!(arcs_after, arcs_before);
    assert_eq!(*fst.states[s0].arcs[0].weight.value(), 6);
    assert_eq!(*fst.states[s0].arcs[1].weight.value(), 8);
    assert_eq!(fst.states[s1].final_weight, Some(IntegerWeight::new(10)));
}

#[test]
fn map_weight_inverts_string_weights() {
    // In the left string semiring, one / w uses left division: the
    // reciprocal of the empty string is the empty string, and dividing by
    // a non-empty string is undefined on the `any` side.
    let mut w = StringWeightLeft::new(StringWeightVariant::Labels(vec![]));
    let r = map_weight(&mut w);
    // DivideAny is not defined for the left string semiring
    assert!(r.is_err());

    let mut v = StringWeightLeft::new(StringWeightVariant::Labels(vec![1]));
    assert!(map_weight(&mut v).is_err());
}

#[test]
fn invert_weight_mapper_rejects_string_weights() {
    // InvertWeightMapper divides on the `any` side, which the one-sided
    // string semirings refuse: the mapping errors and the FST keeps its
    // already-mapped prefix.
    let mut fst: VectorFst<StringWeightLeft> = VectorFst::new();
    let s0 = fst.add_state();
    let s1 = fst.add_state();
    fst.set_start(s0).unwrap();
    fst.add_arc(
        s0,
        Arc::new(1, 1, StringWeightLeft::new(StringWeightVariant::Labels(vec![4])), s1),
    )
    .unwrap();
    fst.set_final(s1, StringWeightLeft::one()).unwrap();

    let mut mapper = InvertWeightMapper {};
    assert!(arc_map(&mut fst, &mut mapper).is_err());
}

/// Test mapper: sends every final weight to an arc towards the superfinal
/// state, labeled 9 on both sides.
struct ToSuperfinalMapper {}

impl ArcMapper<IntegerWeight> for ToSuperfinalMapper {
    fn fa_spec() -> MapFinalAction {
        MapFinalAction::MapRequireSuperfinal
    }

    fn arc_map(&mut self, _arc: &mut Arc<IntegerWeight>) -> Result<(), FstError> {
        Ok(())
    }

    fn final_arc_map(&mut self, final_arc: &mut FinalArc<IntegerWeight>) -> Result<(), FstError> {
        final_arc.ilabel = 9;
        final_arc.olabel = 9;
        Ok(())
    }

    fn final_action(&self) -> MapFinalAction {
        MapFinalAction::MapRequireSuperfinal
    }
}

#[test]
fn arc_map_require_superfinal_always_adds_the_state() {
    let mut fst: VectorFst<IntegerWeight> = VectorFst::new();
    let s = fst.add_state();
    fst.set_start(s).unwrap();
    fst.set_final(s, IntegerWeight::new(3)).unwrap();

    let mut mapper = ToSuperfinalMapper {};
    arc_map(&mut fst, &mut mapper).unwrap();

    assert_eq!(fst.num_states(), 2);
    let sf = 1;
    assert_eq!(fst.states[sf].final_weight, Some(IntegerWeight::one()));
    assert!(fst.states[s].final_weight.is_none());
    assert_eq!(fst.states[s].arcs.len(), 1);
    assert_eq!(fst.states[s].arcs[0].ilabel, 9);
    assert_eq!(fst.states[s].arcs[0].olabel, 9);
    assert_eq!(fst.states[s].arcs[0].nextstate, sf);
}

/// Test mapper: declares NoSuperfinal but produces a labeled final arc.
struct BadNoSuperfinalMapper {}

impl ArcMapper<IntegerWeight> for BadNoSuperfinalMapper {
    fn fa_spec() -> MapFinalAction {
        MapFinalAction::MapNoSuperfinal
    }

    fn arc_map(&mut self, _arc: &mut Arc<IntegerWeight>) -> Result<(), FstError> {
        Ok(())
    }

    fn final_arc_map(&mut self, final_arc: &mut FinalArc<IntegerWeight>) -> Result<(), FstError> {
        final_arc.ilabel = 5;
        Ok(())
    }

    fn final_action(&self) -> MapFinalAction {
        MapFinalAction::MapNoSuperfinal
    }
}

#[test]
fn arc_map_no_superfinal_rejects_labeled_final_arcs() {
    let mut fst: VectorFst<IntegerWeight> = VectorFst::new();
    let s = fst.add_state();
    fst.set_start(s).unwrap();
    fst.set_final(s, IntegerWeight::new(3)).unwrap();

    let mut mapper = BadNoSuperfinalMapper {};
    let r = arc_map(&mut fst, &mut mapper);
    assert_eq!(r, Err(FstError::NonEpsilonSuperfinalLabels));
}
