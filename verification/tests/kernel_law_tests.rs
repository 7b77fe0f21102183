use std::collections::HashSet;

use hubullu::fst::backend::Label;
use hubullu::fst::minimize::minimize;
use hubullu::fst::machine::{
    builder, closure_plus, closure_star, complement, compose, determinize, eps_remove, intersect, invert, paths, union, Fst,
};

fn pair_machine(pairs: &[(Label, Label)]) -> Fst {
    let mut b = builder();
    let s0 = b.add_state();
    b.set_start(s0).unwrap();
    let mut prev = s0;
    for &(i, o) in pairs {
        let next = b.add_state();
        b.add_arc(prev, i, o, next).unwrap();
        prev = next;
    }
    b.set_final(prev).unwrap();
    b.finish().unwrap()
}

fn relation(f: &Fst) -> HashSet<(Vec<Label>, Vec<Label>)> {
    paths(f, 64).into_iter().map(|p| (p.input, p.output)).collect()
}

#[test]
fn union_accepts_what_either_side_accepts() {
    let a = pair_machine(&[(16, 17)]);
    let b = pair_machine(&[(18, 19), (20, 21)]);
    let u = union(&a, &b);
    let expected: HashSet<(Vec<Label>, Vec<Label>)> =
        [(vec![16], vec![17]), (vec![18, 20], vec![19, 21])].into_iter().collect();
    assert_eq!(relation(&u), expected);
}

#[test]
fn invert_swaps_input_and_output() {
    let a = pair_machine(&[(16, 17), (18, 0)]);
    let i = invert(&a);
    let expected: HashSet<(Vec<Label>, Vec<Label>)> = [(vec![17], vec![16, 18])].into_iter().collect();
    assert_eq!(relation(&i), expected);
}

fn rel(items: &[(&[Label], &[Label])]) -> HashSet<(Vec<Label>, Vec<Label>)> {
    items.iter().map(|(i, o)| (i.to_vec(), o.to_vec())).collect()
}

#[test]
fn concat_joins_a_pair_of_each_side() {
    let a = union(&pair_machine(&[(1, 2)]), &pair_machine(&[(3, 3)]));
    let b = pair_machine(&[(5, 6)]);
    let c = hubullu::fst::machine::concat(&a, &b);
    assert_eq!(relation(&c), rel(&[(&[1, 5], &[2, 6]), (&[3, 5], &[3, 6])]));
}

#[test]
fn star_and_plus_join_repeated_pairs() {
    let a = pair_machine(&[(1, 2)]);
    let star = closure_star(&a);
    let plus = closure_plus(&a);
    let short = |f: &Fst| -> HashSet<(Vec<Label>, Vec<Label>)> {
        relation(f).into_iter().filter(|(i, _)| i.len() <= 2).collect()
    };
    assert_eq!(short(&star), rel(&[(&[], &[]), (&[1], &[2]), (&[1, 1], &[2, 2])]));
    assert_eq!(short(&plus), rel(&[(&[1], &[2]), (&[1, 1], &[2, 2])]));
}

#[test]
fn compose_chains_the_two_relations() {
    let a = pair_machine(&[(1, 2), (0, 3)]);
    let b = pair_machine(&[(2, 4), (3, 0), (0, 5)]);
    let c = compose(&a, &b);
    assert_eq!(relation(&c), rel(&[(&[1], &[4, 5])]));
}

#[test]
fn intersect_keeps_common_words() {
    let a = union(&pair_machine(&[(1, 1)]), &pair_machine(&[(2, 2)]));
    let b = union(&pair_machine(&[(2, 2)]), &pair_machine(&[(3, 3)]));
    let c = intersect(&a, &b);
    assert_eq!(relation(&c), rel(&[(&[2], &[2])]));
}

#[test]
fn eps_remove_keeps_the_relation_and_drops_epsilon_arcs() {
    let a = union(&pair_machine(&[(0, 0), (1, 2)]), &pair_machine(&[(3, 0)]));
    let r = eps_remove(&a);
    assert_eq!(relation(&r), relation(&a));
    for row in r.arcs.iter() {
        for arc in row.iter() {
            assert!(!(arc.ilabel == 0 && arc.olabel == 0));
        }
    }
}

#[test]
fn determinize_keeps_the_relation_and_merges_shared_prefixes() {
    let a = union(&pair_machine(&[(1, 1), (2, 2)]), &pair_machine(&[(1, 1), (3, 3)]));
    let d = determinize(&a).unwrap();
    assert_eq!(relation(&d), relation(&a));
    let start = d.start.unwrap();
    let firsts: Vec<(Label, Label)> = d.arcs[start].iter().map(|e| (e.ilabel, e.olabel)).collect();
    let distinct: HashSet<(Label, Label)> = firsts.iter().copied().collect();
    assert_eq!(firsts.len(), distinct.len());
}

#[test]
fn complement_accepts_exactly_the_other_words() {
    let a = union(&pair_machine(&[(1, 1)]), &pair_machine(&[(1, 1), (2, 2)]));
    let c = complement(&a, &[1, 2]).unwrap();
    let short: HashSet<Vec<Label>> = paths(&c, 64).into_iter().map(|p| p.input).filter(|w| w.len() <= 2).collect();
    let expected: HashSet<Vec<Label>> = [vec![], vec![2], vec![1, 1], vec![2, 1], vec![2, 2]].into_iter().collect();
    assert_eq!(short, expected);
}

#[test]
fn minimize_keeps_the_relation_and_merges_equivalent_states() {
    let a = union(&pair_machine(&[(1, 1), (2, 2)]), &pair_machine(&[(3, 3), (2, 2)]));
    let d = determinize(&eps_remove(&a)).unwrap();
    assert_eq!(d.arcs.len(), 5);
    let m = minimize(&d);
    assert_eq!(relation(&m), relation(&a));
    // start, after 1 or 3, final
    assert_eq!(m.arcs.len(), 3);
}

#[test]
fn minimize_of_a_minimal_machine_keeps_its_size() {
    let a = pair_machine(&[(1, 2), (3, 4)]);
    let m = minimize(&a);
    assert_eq!(m.arcs.len(), 3);
    assert_eq!(relation(&m), relation(&a));
}
