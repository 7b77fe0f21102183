use std::collections::HashSet;

use hubullu::fst::alphabet::{PhonruleAlphabet, CARET_OBLIG_LABEL, FIRST_MORPHEME_LABEL, FIRST_USER_LABEL};
use hubullu::fst::backend::Label;
use hubullu::phoneme::PhonemeInventory;

fn inv_with(terms: &[&str]) -> PhonemeInventory {
    let mut inv = PhonemeInventory::default();
    inv.all_terminals = terms.iter().map(|s| s.to_string()).collect();
    inv
}

#[test]
fn empty_reserves_low_labels() {
    let a = PhonruleAlphabet::empty();
    assert_eq!(a.boundary_label(), 1);
    assert_eq!(a.word_start_label(), 2);
    assert_eq!(a.word_end_label(), 3);
    assert_eq!(a.label_to_str(0), Some("<eps>"));
    assert_eq!(a.sigma_len(), 0);
    assert_eq!(a.sigma().len(), 0);
}

#[test]
fn from_inventory_assigns_user_labels_from_16() {
    let inv = inv_with(&["a", "b", "c"]);
    let a = PhonruleAlphabet::from_inventory(&inv);
    assert_eq!(a.sigma_len(), 3);
    assert_eq!(a.lookup("a"), Some(16));
    assert_eq!(a.lookup("b"), Some(17));
    assert_eq!(a.lookup("c"), Some(18));
    let sig: HashSet<Label> = a.sigma().into_iter().collect();
    assert_eq!(sig, [16, 17, 18].iter().copied().collect());
}

#[test]
fn intern_is_idempotent_and_extends_sigma_once() {
    let mut a = PhonruleAlphabet::empty();
    let x1 = a.intern("x");
    let x2 = a.intern("x");
    assert_eq!(x1, x2);
    assert_eq!(a.sigma_len(), 1);
    let y = a.intern("y");
    assert_ne!(x1, y);
    assert_eq!(a.sigma_len(), 2);
}

#[test]
fn reserved_markers_not_in_sigma() {
    let a = PhonruleAlphabet::empty();
    assert!(!a.is_in_sigma(0));
    assert!(!a.is_in_sigma(a.boundary_label()));
    assert!(!a.is_in_sigma(a.word_start_label()));
    assert!(!a.is_in_sigma(a.word_end_label()));
    for l in 4..FIRST_USER_LABEL {
        assert!(!a.is_in_sigma(l), "reserved label {} must not be in sigma", l);
    }
}

#[test]
fn caret_marker_reserved_at_label_8() {
    let a = PhonruleAlphabet::empty();
    assert_eq!(a.caret_label(), 8);
    assert_eq!(CARET_OBLIG_LABEL, 8);
    assert_eq!(a.label_to_str(CARET_OBLIG_LABEL), Some("<caret>"));
    assert!(!a.is_in_sigma(a.caret_label()));
    let mut a2 = PhonruleAlphabet::empty();
    assert_eq!(a2.intern("a"), FIRST_USER_LABEL);
}

#[test]
fn label_to_str_round_trip_for_user_symbols() {
    let mut a = PhonruleAlphabet::empty();
    let l = a.intern("ng");
    assert_eq!(a.label_to_str(l), Some("ng"));
}

#[test]
fn morpheme_labels_live_in_dedicated_range() {
    let mut a = PhonruleAlphabet::empty();
    let l1 = a.intern_morpheme("pn_pc_1sg");
    let l2 = a.intern_morpheme("tns_pc");
    assert!(l1 >= FIRST_MORPHEME_LABEL);
    assert!(l2 >= FIRST_MORPHEME_LABEL);
    assert_ne!(l1, l2);
    let pa = a.intern("a");
    assert_eq!(pa, FIRST_USER_LABEL);
}

#[test]
fn morpheme_intern_is_idempotent() {
    let mut a = PhonruleAlphabet::empty();
    let l1 = a.intern_morpheme("neg_pc");
    let l2 = a.intern_morpheme("neg_pc");
    assert_eq!(l1, l2);
    assert_eq!(a.morpheme_count(), 1);
}

#[test]
fn morpheme_label_round_trips_via_label_to_str() {
    let mut a = PhonruleAlphabet::empty();
    let l = a.intern_morpheme("pn_pst_1pl");
    assert_eq!(a.label_to_str(l), Some("<m:pn_pst_1pl>"));
    assert_eq!(a.label_to_morpheme(l), Some("pn_pst_1pl"));
    assert_eq!(a.lookup_morpheme("pn_pst_1pl"), Some(l));
}

#[test]
fn morphemes_are_not_in_sigma() {
    let mut a = PhonruleAlphabet::empty();
    let l = a.intern_morpheme("m1");
    assert!(!a.is_in_sigma(l));
    assert!(a.is_morpheme_label(l));
}

#[test]
fn from_inventory_sorts_and_dedups_terminals() {
    let inv = inv_with(&["c", "a", "c", "b"]);
    let a = PhonruleAlphabet::from_inventory(&inv);
    assert_eq!(a.sigma(), vec![16, 17, 18]);
    assert_eq!(a.lookup("a"), Some(16));
    assert_eq!(a.lookup("c"), Some(18));
}

#[test]
fn morphemes_lists_names_with_labels() {
    let mut a = PhonruleAlphabet::empty();
    let l1 = a.intern_morpheme("x");
    let l2 = a.intern_morpheme("y");
    assert_eq!(a.morphemes(), vec![("x".to_string(), l1), ("y".to_string(), l2)]);
    assert_eq!(a.label_to_morpheme_prefixed(l2), Some("<m:y>"));
    assert_eq!(a.label_to_morpheme(FIRST_MORPHEME_LABEL + 5), None);
}

#[test]
fn from_inventory_labels_terminals_in_sorted_order() {
    let a = PhonruleAlphabet::from_inventory(&inv_with(&["c", "a", "b", "a"]));
    assert_eq!(a.sigma_len(), 3);
    assert_eq!(a.lookup("a"), Some(16));
    assert_eq!(a.lookup("b"), Some(17));
    assert_eq!(a.lookup("c"), Some(18));
    assert_eq!(a.sigma(), vec![16, 17, 18]);
}
