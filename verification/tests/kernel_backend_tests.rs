use hubullu::fst::backend::{FstBackend, FstBuilder, FstResult, Label};
use hubullu::fst::kernel::{Backend, InTreeBackend};

fn word<B: FstBackend>(labels: &[Label]) -> FstResult<B::Fst> {
    let mut b = B::builder();
    let mut prev = b.add_state();
    b.set_start(prev)?;
    for &l in labels {
        let next = b.add_state();
        b.add_arc(prev, l, l, next)?;
        prev = next;
    }
    b.set_final(prev)?;
    b.finish()
}

fn inputs<B: FstBackend>(f: &B::Fst) -> Vec<Vec<Label>> {
    let mut v: Vec<Vec<Label>> = B::paths(f, 64).unwrap().into_iter().map(|p| p.input).collect();
    v.sort();
    v.dedup();
    v
}

#[test]
fn generic_builder_and_concat_through_the_trait() {
    let a = word::<InTreeBackend>(&[1, 2]).unwrap();
    let b = word::<InTreeBackend>(&[3]).unwrap();
    let ab = InTreeBackend::concat(&a, &b).unwrap();
    assert_eq!(inputs::<InTreeBackend>(&ab), vec![vec![1, 2, 3]]);
    assert_eq!(InTreeBackend::num_states(&ab), 5);
}

#[test]
fn union_and_optional_through_the_trait() {
    let a = word::<Backend>(&[1]).unwrap();
    let b = word::<Backend>(&[2, 2]).unwrap();
    let u = Backend::union(&a, &b).unwrap();
    assert_eq!(inputs::<Backend>(&u), vec![vec![1], vec![2, 2]]);
    let o = Backend::closure_optional(&a).unwrap();
    assert_eq!(inputs::<Backend>(&o), vec![vec![], vec![1]]);
}

#[test]
fn bounded_repeat_through_the_trait() {
    let a = word::<Backend>(&[7]).unwrap();
    let r = Backend::closure_bounded(&a, 1, 3).unwrap();
    assert_eq!(inputs::<Backend>(&r), vec![vec![7], vec![7, 7], vec![7, 7, 7]]);
    assert!(Backend::closure_bounded(&a, 2, 1).is_err());
}

#[test]
fn serialize_round_trip_through_the_trait() {
    let a = word::<Backend>(&[4, 5]).unwrap();
    let bytes = Backend::serialize(&a).unwrap();
    let back = Backend::deserialize(&bytes).unwrap();
    assert_eq!(inputs::<Backend>(&back), vec![vec![4, 5]]);
}

#[test]
fn finish_without_start_is_an_error() {
    let mut b = Backend::builder();
    let _ = b.add_state();
    assert!(b.finish().is_err());
}

#[test]
fn complement_through_the_trait_rejects_what_was_accepted() {
    let a = word::<Backend>(&[1]).unwrap();
    let c = Backend::complement(&a, &[1, 2]).unwrap();
    let paths = inputs::<Backend>(&c);
    assert!(paths.contains(&vec![]));
    assert!(paths.contains(&vec![2]));
    assert!(!paths.contains(&vec![1]));
    assert!(paths.contains(&vec![1, 1]));
}
