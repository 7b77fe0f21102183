use hubullu::fst::machine::{builder, closure_star, paths, Arc, Fst};
use hubullu::fst::serial::{deserialize, serialize};

fn small_machine() -> Fst {
    let mut b = builder();
    let s0 = b.add_state();
    let s1 = b.add_state();
    b.set_start(s0).unwrap();
    b.set_final(s1).unwrap();
    b.add_arc(s0, 16, 17, s1).unwrap();
    b.add_arc(s1, 18, 0, s0).unwrap();
    b.finish().unwrap()
}

#[test]
fn round_trip_preserves_the_machine() {
    let f = small_machine();
    let bytes = serialize(&f);
    let g = deserialize(&bytes).expect("round trip");
    assert_eq!(g.start, f.start);
    assert_eq!(g.finals, f.finals);
    assert_eq!(g.arcs, f.arcs);
    assert_eq!(paths(&g, 16), paths(&f, 16));
}

#[test]
fn encoding_layout_is_little_endian_words() {
    let f = small_machine();
    let bytes = serialize(&f);
    // header (3 words) + state 0 (2 + 3) + state 1 (2 + 3)
    assert_eq!(bytes.len(), 8 * (3 + 5 + 5));
    assert_eq!(&bytes[0..8], &[2, 0, 0, 0, 0, 0, 0, 0]);
    assert_eq!(&bytes[8..16], &[1, 0, 0, 0, 0, 0, 0, 0]);
    assert_eq!(&bytes[16..24], &[0, 0, 0, 0, 0, 0, 0, 0]);
}

#[test]
fn round_trip_of_a_closure() {
    let f = closure_star(&small_machine());
    let g = deserialize(&serialize(&f)).unwrap();
    assert_eq!(g.arcs, f.arcs);
    assert_eq!(g.finals, f.finals);
}

#[test]
fn malformed_bytes_are_rejected() {
    assert!(deserialize(&[1, 2, 3]).is_err());
    let mut bytes = serialize(&small_machine());
    bytes.truncate(bytes.len() - 8);
    assert!(deserialize(&bytes).is_err());
    let mut bad_target = serialize(&small_machine());
    // the nextstate of the first arc (word 3 + 2 + 2) points past the states
    bad_target[8 * 7] = 9;
    assert!(deserialize(&bad_target).is_err());
}

#[test]
fn well_formedness_check_matches_the_machine() {
    let good = Fst { start: Some(0), finals: vec![false, true], arcs: vec![vec![Arc { ilabel: 16, olabel: 16, nextstate: 1 }], vec![]] };
    assert!(good.is_well_formed());
    let bad_target = Fst { start: Some(0), finals: vec![false, true], arcs: vec![vec![Arc { ilabel: 16, olabel: 16, nextstate: 2 }], vec![]] };
    assert!(!bad_target.is_well_formed());
    let bad_start = Fst { start: Some(2), finals: vec![false, true], arcs: vec![vec![], vec![]] };
    assert!(!bad_start.is_well_formed());
    let bad_finals = Fst { start: None, finals: vec![true], arcs: vec![vec![], vec![]] };
    assert!(!bad_finals.is_well_formed());
}
