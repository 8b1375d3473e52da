//! Relabeling: replacement of input and/or output labels using pairs of
//! the form `(old_label, new_label)`; omitted labels are identity-mapped.

use std::collections::HashMap;

use vstd::prelude::*;

use crate::arc::ArcV;
use crate::errors::FstError;
use crate::fst_impls::vector_fst::{FstV, StateV, VectorFst};
use crate::semirings::semiring::Semiring;
use crate::Label;

verus! {

broadcast use vstd::std_specs::hash::group_hash_axioms;

/// Whether no old label occurs twice in a pair list.
pub open spec fn no_dup_keys(pairs: Seq<(Label, Label)>) -> bool {
    forall|i: int, j: int|
        0 <= i < j < pairs.len() ==> (#[trigger] pairs[i]).0 != (#[trigger] pairs[j]).0
}

/// The finite map described by a pair list.
pub open spec fn pairs_map(pairs: Seq<(Label, Label)>) -> Map<Label, Label>
    decreases pairs.len(),
{
    if pairs.len() == 0 {
        Map::empty()
    } else {
        pairs_map(pairs.drop_last()).insert(pairs.last().0, pairs.last().1)
    }
}

/// The domain of `pairs_map` is the set of old labels of the list.
pub proof fn lemma_pairs_map_dom(pairs: Seq<(Label, Label)>, l: Label)
    ensures
        pairs_map(pairs).dom().contains(l) <==> (exists|i: int|
            0 <= i < pairs.len() && (#[trigger] pairs[i]).0 == l),
    decreases pairs.len(),
{
    if pairs.len() > 0 {
        lemma_pairs_map_dom(pairs.drop_last(), l);
        if pairs.last().0 == l {
            assert(pairs[pairs.len() - 1].0 == l);
        } else {
            if exists|i: int| 0 <= i < pairs.len() - 1 && (#[trigger] pairs.drop_last()[i]).0
                == l {
                let i = choose|i: int|
                    0 <= i < pairs.len() - 1 && (#[trigger] pairs.drop_last()[i]).0 == l;
                assert(pairs[i].0 == l);
            }
            if exists|i: int| 0 <= i < pairs.len() && (#[trigger] pairs[i]).0 == l {
                let i = choose|i: int| 0 <= i < pairs.len() && (#[trigger] pairs[i]).0 == l;
                assert(i < pairs.len() - 1);
                assert(pairs.drop_last()[i].0 == l);
            }
        }
    }
}

/// The label a relabeling map sends `l` to: its image when present,
/// otherwise `l` itself.
pub open spec fn apply_map(m: Map<Label, Label>, l: Label) -> Label {
    if m.dom().contains(l) {
        m[l]
    } else {
        l
    }
}

/// An arc with both labels sent through the relabeling maps.
pub open spec fn relabel_arc<WV>(a: ArcV<WV>, im: Map<Label, Label>, om: Map<Label, Label>) -> ArcV<
    WV,
> {
    ArcV {
        ilabel: apply_map(im, a.ilabel),
        olabel: apply_map(om, a.olabel),
        weight: a.weight,
        nextstate: a.nextstate,
    }
}

/// A state with every arc relabeled.
pub open spec fn relabel_state<WV>(
    st: StateV<WV>,
    im: Map<Label, Label>,
    om: Map<Label, Label>,
) -> StateV<WV> {
    StateV {
        final_weight: st.final_weight,
        arcs: st.arcs.map_values(|a: ArcV<WV>| relabel_arc(a, im, om)),
    }
}

/// An FST with every arc of every state relabeled.
pub open spec fn relabel_fst_spec<WV>(
    f: FstV<WV>,
    im: Map<Label, Label>,
    om: Map<Label, Label>,
) -> FstV<WV> {
    FstV {
        states: f.states.map_values(|st: StateV<WV>| relabel_state(st, im, om)),
        start: f.start,
    }
}

/// Builds a hash map from a pair list, failing on the first old label that
/// occurs twice.
fn pairs_to_hashmap(pairs: &Vec<(Label, Label)>) -> (r: Result<HashMap<Label, Label>, FstError>)
    ensures
        match r {
            Ok(m) => no_dup_keys(pairs@) && m@ == pairs_map(pairs@),
            Err(e) => !no_dup_keys(pairs@) && (e matches FstError::DuplicateRelabelPair(l)
                && exists|i: int, j: int|
                    0 <= i < j < pairs@.len() && (#[trigger] pairs@[i]).0 == l && (
                    #[trigger] pairs@[j]).0 == l),
        },
{
    let mut map_labels: HashMap<Label, Label> = HashMap::new();
    let mut i: usize = 0;
    while i < pairs.len()
        invariant
            i <= pairs@.len(),
            no_dup_keys(pairs@.take(i as int)),
            map_labels@ == pairs_map(pairs@.take(i as int)),
        decreases pairs@.len() - i,
    {
        let (s1, s2) = pairs[i];
        proof {
            lemma_pairs_map_dom(pairs@.take(i as int), s1);
        }
        if map_labels.contains_key(&s1) {
            proof {
                let j = choose|j: int|
                    0 <= j < i && (#[trigger] pairs@.take(i as int)[j]).0 == s1;
                assert(pairs@[j].0 == s1);
                assert(pairs@[i as int].0 == s1);
                assert((pairs@[j]).0 == s1 && (pairs@[i as int]).0 == s1);
            }
            return Err(FstError::DuplicateRelabelPair(s1));
        }
        map_labels.insert(s1, s2);
        proof {
            assert(pairs@.take(i + 1).drop_last() =~= pairs@.take(i as int));
            assert(pairs@.take(i + 1).last() == pairs@[i as int]);
            assert forall|i2: int, j2: int|
                0 <= i2 < j2 < i + 1 implies (#[trigger] pairs@.take(i + 1)[i2]).0 != (
            #[trigger] pairs@.take(i + 1)[j2]).0 by {
                if j2 == i as int {
                    assert(pairs@.take(i as int)[i2] == pairs@.take(i + 1)[i2]);
                    lemma_pairs_map_dom(pairs@.take(i as int), pairs@.take(i + 1)[i2].0);
                } else {
                    assert(pairs@.take(i as int)[i2] == pairs@.take(i + 1)[i2]);
                    assert(pairs@.take(i as int)[j2] == pairs@.take(i + 1)[j2]);
                }
            }
        }
        i = i + 1;
    }
    proof {
        assert(pairs@.take(pairs@.len() as int) =~= pairs@);
    }
    Ok(map_labels)
}

/// Destructively relabels the input and output labels of every arc: a
/// label appearing as the first component of a pair is replaced by the
/// second component; other labels are kept.  Fails, leaving the FST
/// unchanged, exactly when a pair list mentions the same old label twice.
pub fn relabel_pairs<W: Semiring>(
    fst: &mut VectorFst<W>,
    ipairs: Vec<(Label, Label)>,
    opairs: Vec<(Label, Label)>,
) -> (r: Result<(), FstError>)
    requires
        old(fst)@.wf(),
    ensures
        match r {
            Ok(_) => no_dup_keys(ipairs@) && no_dup_keys(opairs@) && final(fst)@
                == relabel_fst_spec(old(fst)@, pairs_map(ipairs@), pairs_map(opairs@)),
            Err(e) => (!no_dup_keys(ipairs@) || !no_dup_keys(opairs@)) && *final(fst) == *old(fst)
                && (e matches FstError::DuplicateRelabelPair(l) && ((exists|i: int, j: int|
                    0 <= i < j < ipairs@.len() && (#[trigger] ipairs@[i]).0 == l && (
                    #[trigger] ipairs@[j]).0 == l) || (no_dup_keys(ipairs@) && exists|i: int, j: int|
                    0 <= i < j < opairs@.len() && (#[trigger] opairs@[i]).0 == l && (
                    #[trigger] opairs@[j]).0 == l))),
        },
        final(fst)@.wf(),
{
    let map_ilabels = match pairs_to_hashmap(&ipairs) {
        Ok(m) => m,
        Err(e) => {
            return Err(e);
        },
    };
    let map_olabels = match pairs_to_hashmap(&opairs) {
        Ok(m) => m,
        Err(e) => {
            return Err(e);
        },
    };
    let ghost im = pairs_map(ipairs@);
    let ghost om = pairs_map(opairs@);
    let ghost of = fst@;
    let n = fst.num_states();
    let mut s: usize = 0;
    while s < n
        invariant
            of == old(fst)@,
            of.wf(),
            n == of.states.len(),
            im == pairs_map(ipairs@),
            om == pairs_map(opairs@),
            map_ilabels@ == im,
            map_olabels@ == om,
            s <= n,
            fst@.start == of.start,
            fst@.states.len() == n,
            forall|s2: int|
                0 <= s2 < s ==> #[trigger] fst@.states[s2] == relabel_state(of.states[s2], im, om),
            forall|s2: int| s <= s2 < n ==> #[trigger] fst@.states[s2] == of.states[s2],
        decreases n - s,
    {
        let narcs = fst.states[s].arcs.len();
        let mut i: usize = 0;
        while i < narcs
            invariant
                of.wf(),
                n == of.states.len(),
                s < n,
                im == pairs_map(ipairs@),
                om == pairs_map(opairs@),
                map_ilabels@ == im,
                map_olabels@ == om,
                i <= narcs,
                narcs == of.states[s as int].arcs.len(),
                fst@.start == of.start,
                fst@.states.len() == n,
                forall|s2: int|
                    0 <= s2 < s ==> #[trigger] fst@.states[s2] == relabel_state(
                        of.states[s2],
                        im,
                        om,
                    ),
                forall|s2: int| s < s2 < n ==> #[trigger] fst@.states[s2] == of.states[s2],
                fst@.states[s as int].final_weight == of.states[s as int].final_weight,
                fst@.states[s as int].arcs.len() == narcs,
                forall|j: int|
                    0 <= j < i ==> #[trigger] fst@.states[s as int].arcs[j] == relabel_arc(
                        of.states[s as int].arcs[j],
                        im,
                        om,
                    ),
                forall|j: int|
                    i <= j < narcs ==> #[trigger] fst@.states[s as int].arcs[j]
                        == of.states[s as int].arcs[j],
            decreases narcs - i,
        {
            let ghost prev = fst@;
            let l = fst.states[s].arcs[i].ilabel;
            match map_ilabels.get(&l) {
                Some(v) => {
                    fst.states[s].arcs[i].ilabel = *v;
                },
                None => {},
            }
            let lo = fst.states[s].arcs[i].olabel;
            match map_olabels.get(&lo) {
                Some(v) => {
                    fst.states[s].arcs[i].olabel = *v;
                },
                None => {},
            }
            proof {
                let na = fst.states@[s as int].arcs@[i as int]@;
                assert(fst@.states =~~= prev.states.update(
                    s as int,
                    StateV {
                        final_weight: prev.states[s as int].final_weight,
                        arcs: prev.states[s as int].arcs.update(i as int, na),
                    },
                ));
                assert(prev.states[s as int].arcs[i as int] == of.states[s as int].arcs[i as int]);
                assert(na == relabel_arc(of.states[s as int].arcs[i as int], im, om));
                assert forall|j: int|
                    0 <= j < i + 1 implies #[trigger] fst@.states[s as int].arcs[j] == relabel_arc(
                    of.states[s as int].arcs[j],
                    im,
                    om,
                ) by {
                    if j < i {
                        assert(fst@.states[s as int].arcs[j] == prev.states[s as int].arcs[j]);
                    }
                }
                assert forall|j: int|
                    i + 1 <= j < narcs implies #[trigger] fst@.states[s as int].arcs[j]
                        == of.states[s as int].arcs[j] by {
                    assert(fst@.states[s as int].arcs[j] == prev.states[s as int].arcs[j]);
                }
            }
            i = i + 1;
        }
        proof {
            assert(fst@.states[s as int].arcs =~= relabel_state(of.states[s as int], im, om).arcs);
            assert(fst@.states[s as int] =~~= relabel_state(of.states[s as int], im, om));
        }
        s = s + 1;
    }
    proof {
        assert(fst@.states =~~= relabel_fst_spec(of, im, om).states);
        assert(fst@ =~~= relabel_fst_spec(of, im, om));
        assert forall|s2: int, j: int|
            0 <= s2 < fst@.states.len() && 0 <= j < fst@.states[s2].arcs.len() implies (
        #[trigger] fst@.states[s2].arcs[j]).nextstate < fst@.states.len() by {
            assert(fst@.states[s2] == relabel_state(of.states[s2], im, om));
            assert(fst@.states[s2].arcs[j] == relabel_arc(of.states[s2].arcs[j], im, om));
        }
    }
    Ok(())
}

/// Two relabeling maps that undo one another.
pub open spec fn inverse_maps(m: Map<Label, Label>, m_inv: Map<Label, Label>) -> bool {
    forall|l: Label|
        #[trigger] m.dom().contains(l) ==> m_inv.dom().contains(m[l]) && m_inv[m[l]] == l
}

/// Law: relabeling with a map and then with its inverse restores the FST,
/// provided every label on an arc of the FST lies in the map's domain.
pub proof fn lemma_relabel_round_trip<WV>(
    f: FstV<WV>,
    im: Map<Label, Label>,
    im_inv: Map<Label, Label>,
    om: Map<Label, Label>,
    om_inv: Map<Label, Label>,
)
    requires
        inverse_maps(im, im_inv),
        inverse_maps(om, om_inv),
        forall|s: int, j: int|
            0 <= s < f.states.len() && 0 <= j < f.states[s].arcs.len() ==> im.dom().contains(
                (#[trigger] f.states[s].arcs[j]).ilabel,
            ) && om.dom().contains(f.states[s].arcs[j].olabel),
    ensures
        relabel_fst_spec(relabel_fst_spec(f, im, om), im_inv, om_inv) == f,
{
    let f1 = relabel_fst_spec(f, im, om);
    let f2 = relabel_fst_spec(f1, im_inv, om_inv);
    assert forall|s: int| 0 <= s < f.states.len() implies #[trigger] f2.states[s] == f.states[s] by {
        assert(f1.states[s] == relabel_state(f.states[s], im, om));
        assert(f2.states[s] == relabel_state(f1.states[s], im_inv, om_inv));
        assert forall|j: int| 0 <= j < f.states[s].arcs.len() implies #[trigger] f2.states[s].arcs[j]
            == f.states[s].arcs[j] by {
            let a = f.states[s].arcs[j];
            assert(f1.states[s].arcs[j] == relabel_arc(a, im, om));
            assert(f2.states[s].arcs[j] == relabel_arc(relabel_arc(a, im, om), im_inv, om_inv));
        }
        assert(f2.states[s].arcs =~= f.states[s].arcs);
        assert(f2.states[s] =~~= f.states[s]);
    }
    assert(f2.states =~~= f.states);
    assert(f2 =~~= f);
}

} // verus!
