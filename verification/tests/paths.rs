//! Tests of the path enumeration and linear-FST decoding.

use rustfst::arc::Arc;
use rustfst::errors::FstError;
use rustfst::fst_impls::vector_fst::VectorFst;
use rustfst::fst_path::FstPath;
use rustfst::fst_traits::paths_iterator::StructPathsIterator;
use rustfst::semirings::boolean_weight::BooleanWeight;
use rustfst::semirings::integer_weight::IntegerWeight;
use rustfst::semirings::semiring::Semiring;
use rustfst::utils::decode_linear_fst;

const FUEL: usize = 10_000;

/// A linear acceptor: one state per label plus a final state, each arc
/// carrying the label on both tapes with weight one.
fn acceptor_int(labels: &[usize]) -> VectorFst<IntegerWeight> {
    let mut fst: VectorFst<IntegerWeight> = VectorFst::new();
    let mut prev = fst.add_state();
    fst.set_start(prev).unwrap();
    for &l in labels {
        let next = fst.add_state();
        fst.add_arc(prev, Arc::new(l, l, IntegerWeight::one(), next)).unwrap();
        prev = next;
    }
    fst.set_final(prev, IntegerWeight::one()).unwrap();
    fst
}

fn acceptor_bool(labels: &[usize]) -> VectorFst<BooleanWeight> {
    let mut fst: VectorFst<BooleanWeight> = VectorFst::new();
    let mut prev = fst.add_state();
    fst.set_start(prev).unwrap();
    for &l in labels {
        let next = fst.add_state();
        fst.add_arc(prev, Arc::new(l, l, BooleanWeight::one(), next)).unwrap();
        prev = next;
    }
    fst.set_final(prev, BooleanWeight::one()).unwrap();
    fst
}

fn transducer_bool(inputs: &[usize], outputs: &[usize]) -> VectorFst<BooleanWeight> {
    let mut fst: VectorFst<BooleanWeight> = VectorFst::new();
    let mut prev = fst.add_state();
    fst.set_start(prev).unwrap();
    for k in 0..inputs.len() {
        let next = fst.add_state();
        fst.add_arc(prev, Arc::new(inputs[k], outputs[k], BooleanWeight::one(), next)).unwrap();
        prev = next;
    }
    fst.set_final(prev, BooleanWeight::one()).unwrap();
    fst
}

fn collect_paths<W: Semiring>(fst: &VectorFst<W>) -> Vec<FstPath<W>> {
    let mut it = StructPathsIterator::new(fst);
    let mut out = Vec::new();
    while let Some(p) = it.next(fst, FUEL).unwrap() {
        out.push(p);
    }
    out
}

fn path_key(p: &FstPath<IntegerWeight>) -> (Vec<usize>, Vec<usize>, u64) {
    (p.ilabels.clone(), p.olabels.clone(), *p.weight.value())
}

#[test]
fn test_paths_iterator_linear_fst() {
    let labels = vec![153, 45, 96];
    let fst = acceptor_int(&labels);

    let paths = collect_paths(&fst);
    assert_eq!(paths.len(), 1);

    for path in &paths {
        assert!(*path == FstPath::new(labels.clone(), labels.clone(), IntegerWeight::one()));
    }
}

#[test]
fn test_paths_iterator_small_fst_one_final_state() {
    let mut fst: VectorFst<IntegerWeight> = VectorFst::new();

    let s1 = fst.add_state();
    let s2 = fst.add_state();
    let s3 = fst.add_state();
    let s4 = fst.add_state();

    fst.set_start(s1).unwrap();
    fst.set_final(s4, IntegerWeight::new(18)).unwrap();

    fst.add_arc(s1, Arc::new(1, 1, IntegerWeight::new(1), s2)).unwrap();
    fst.add_arc(s1, Arc::new(2, 2, IntegerWeight::new(2), s3)).unwrap();
    fst.add_arc(s1, Arc::new(3, 3, IntegerWeight::new(3), s4)).unwrap();
    fst.add_arc(s2, Arc::new(4, 4, IntegerWeight::new(4), s4)).unwrap();
    fst.add_arc(s3, Arc::new(5, 5, IntegerWeight::new(5), s4)).unwrap();

    let paths = collect_paths(&fst);
    assert_eq!(paths.len(), 3);

    let mut keys: Vec<_> = paths.iter().map(path_key).collect();
    keys.sort();
    let mut expected = vec![
        (vec![1, 4], vec![1, 4], 4 * 18),
        (vec![2, 5], vec![2, 5], 10 * 18),
        (vec![3], vec![3], 3 * 18),
    ];
    expected.sort();
    assert_eq!(keys, expected);
}

#[test]
fn test_paths_iterator_small_fst_multiple_final_states() {
    let mut fst: VectorFst<IntegerWeight> = VectorFst::new();

    let s1 = fst.add_state();
    let s2 = fst.add_state();
    let s3 = fst.add_state();
    let s4 = fst.add_state();

    fst.set_start(s1).unwrap();
    fst.set_final(s1, IntegerWeight::new(38)).unwrap();
    fst.set_final(s2, IntegerWeight::new(41)).unwrap();
    fst.set_final(s3, IntegerWeight::new(53)).unwrap();
    fst.set_final(s4, IntegerWeight::new(185)).unwrap();

    fst.add_arc(s1, Arc::new(1, 1, IntegerWeight::new(1), s2)).unwrap();
    fst.add_arc(s1, Arc::new(2, 2, IntegerWeight::new(2), s3)).unwrap();
    fst.add_arc(s1, Arc::new(3, 3, IntegerWeight::new(3), s4)).unwrap();
    fst.add_arc(s2, Arc::new(4, 4, IntegerWeight::new(4), s4)).unwrap();
    fst.add_arc(s3, Arc::new(5, 5, IntegerWeight::new(5), s4)).unwrap();

    let paths = collect_paths(&fst);
    assert_eq!(paths.len(), 6);

    let mut keys: Vec<_> = paths.iter().map(path_key).collect();
    keys.sort();
    let mut expected = vec![
        (vec![], vec![], 38),
        (vec![1], vec![1], 41),
        (vec![2], vec![2], 2 * 53),
        (vec![1, 4], vec![1, 4], 4 * 185),
        (vec![2, 5], vec![2, 5], 10 * 185),
        (vec![3], vec![3], 3 * 185),
    ];
    expected.sort();
    assert_eq!(keys, expected);
}

#[test]
fn test_decode_linear_fst_acceptor() {
    let labels = vec![1, 2, 3];
    let fst = acceptor_bool(&labels);

    let path = decode_linear_fst(&fst).unwrap();
    let path_ref = FstPath::new(labels.clone(), labels, BooleanWeight::one());
    assert!(path == path_ref);
}

#[test]
fn test_decode_linear_fst_transducer() {
    let labels_input = vec![1, 2, 3];
    let labels_output = vec![43, 22, 18];
    let fst = transducer_bool(&labels_input, &labels_output);

    let path = decode_linear_fst(&fst).unwrap();
    let path_ref = FstPath::new(labels_input, labels_output, BooleanWeight::one());
    assert!(path == path_ref);
}

#[test]
fn test_decode_linear_fst_empty_fst() {
    let fst = VectorFst::<BooleanWeight>::new();
    let path = decode_linear_fst(&fst).unwrap();
    let empty: FstPath<BooleanWeight> = Default::default();
    assert!(path == empty);
}

#[test]
fn test_decode_linear_fst_state_start_and_final() {
    let mut fst = VectorFst::<BooleanWeight>::new();
    let s = fst.add_state();
    fst.set_start(s).unwrap();
    fst.set_final(s, BooleanWeight::one()).unwrap();

    let path = decode_linear_fst(&fst).unwrap();
    let empty: FstPath<BooleanWeight> = Default::default();
    assert!(path == empty);
}

#[test]
fn test_decode_linear_fst_fst_not_linear() {
    let mut fst = VectorFst::<BooleanWeight>::new();
    let s1 = fst.add_state();
    let s2 = fst.add_state();
    fst.set_start(s1).unwrap();
    fst.set_final(s2, BooleanWeight::one()).unwrap();
    fst.add_arc(s1, Arc::new(10, 10, BooleanWeight::one(), s2)).unwrap();
    fst.add_arc(s1, Arc::new(10, 10, BooleanWeight::one(), s2)).unwrap();

    assert_eq!(decode_linear_fst(&fst), Err(FstError::NotLinear));
}

#[test]
fn linear_fst_decodes_to_its_label_sequence() {
    // A four-state chain with arcs (1,1,1), (2,2,1), (3,3,1) and final
    // weight one yields exactly one path, reading 1 2 3 on both tapes
    // with weight one.
    let mut fst: VectorFst<IntegerWeight> = VectorFst::new();
    let s0 = fst.add_state();
    let s1 = fst.add_state();
    let s2 = fst.add_state();
    let s3 = fst.add_state();
    fst.set_start(s0).unwrap();
    fst.add_arc(s0, Arc::new(1, 1, IntegerWeight::new(1), s1)).unwrap();
    fst.add_arc(s1, Arc::new(2, 2, IntegerWeight::new(1), s2)).unwrap();
    fst.add_arc(s2, Arc::new(3, 3, IntegerWeight::new(1), s3)).unwrap();
    fst.set_final(s3, IntegerWeight::new(1)).unwrap();

    let paths = collect_paths(&fst);
    assert_eq!(paths.len(), 1);
    assert_eq!(paths[0].ilabels, vec![1, 2, 3]);
    assert_eq!(paths[0].olabels, vec![1, 2, 3]);
    assert_eq!(*paths[0].weight.value(), 1);

    let decoded = decode_linear_fst(&fst).unwrap();
    assert!(decoded == FstPath::new(vec![1, 2, 3], vec![1, 2, 3], IntegerWeight::new(1)));
}

#[test]
fn paths_iterator_reports_exhausted_budget() {
    // A cyclic FST recognizes infinitely many paths; with a too-small
    // search budget the enumeration reports it instead of diverging.
    let mut fst: VectorFst<IntegerWeight> = VectorFst::new();
    let s0 = fst.add_state();
    fst.set_start(s0).unwrap();
    fst.add_arc(s0, Arc::new(1, 1, IntegerWeight::one(), s0)).unwrap();

    let mut it = StructPathsIterator::new(&fst);
    assert_eq!(it.next(&fst, 5), Err(FstError::EnumerationLimit));
}

#[test]
fn paths_iterator_reports_weight_overflow() {
    let mut fst: VectorFst<IntegerWeight> = VectorFst::new();
    let s0 = fst.add_state();
    let s1 = fst.add_state();
    let s2 = fst.add_state();
    fst.set_start(s0).unwrap();
    fst.add_arc(s0, Arc::new(1, 1, IntegerWeight::new(u64::MAX), s1)).unwrap();
    fst.add_arc(s1, Arc::new(2, 2, IntegerWeight::new(2), s2)).unwrap();
    fst.set_final(s2, IntegerWeight::one()).unwrap();

    let mut it = StructPathsIterator::new(&fst);
    assert_eq!(
        it.next(&fst, FUEL),
        Err(FstError::Weight(rustfst::errors::SemiringError::NumericOverflow))
    );
}

#[test]
fn decode_ignores_dead_end_branches() {
    // One accepting chain plus several two-arc dead-end branches: the
    // enumeration examines more partial paths than there are states, and
    // decoding still returns the unique accepted path.
    let mut fst: VectorFst<IntegerWeight> = VectorFst::new();
    let s0 = fst.add_state();
    let s1 = fst.add_state();
    fst.set_start(s0).unwrap();
    fst.add_arc(s0, Arc::new(1, 1, IntegerWeight::one(), s1)).unwrap();
    fst.set_final(s1, IntegerWeight::one()).unwrap();
    for _ in 0..5 {
        let d1 = fst.add_state();
        let d2 = fst.add_state();
        fst.add_arc(s0, Arc::new(9, 9, IntegerWeight::one(), d1)).unwrap();
        fst.add_arc(d1, Arc::new(9, 9, IntegerWeight::one(), d2)).unwrap();
    }

    let path = decode_linear_fst(&fst).unwrap();
    assert!(path == FstPath::new(vec![1], vec![1], IntegerWeight::one()));
}
