use hubullu::ast::{PhonAtom, PhonContextElem, Quantifier, Span, Spanned, SylSpec};
use hubullu::fst::alphabet::{PhonruleAlphabet, BOUNDARY_LABEL, WORD_END_LABEL, WORD_START_LABEL};
use hubullu::fst::backend::Label;
use hubullu::fst::machine::{paths, Fst};
use hubullu::fst::phonrule::context::{compile_context_elem, compile_context_sequence, ContextCompileError};
use hubullu::fst::table::FstTable;
use hubullu::span::FileId;

fn sp() -> Span {
    Span { file_id: FileId(0), start: 0, end: 0 }
}

fn ident(s: &str) -> Spanned<String> {
    Spanned::new(s.to_string(), sp())
}

fn accepted(f: &Fst) -> Vec<Vec<Label>> {
    let mut out: Vec<Vec<Label>> = paths(f, 64)
        .into_iter()
        .map(|p| {
            assert_eq!(p.input, p.output);
            p.input
        })
        .collect();
    out.sort();
    out.dedup();
    out
}

#[test]
fn empty_context_sequence_accepts_only_the_empty_word() {
    let mut alpha = PhonruleAlphabet::empty();
    let f = compile_context_sequence(&vec![], &mut alpha, &FstTable::new()).unwrap();
    assert_eq!(accepted(&f), vec![Vec::<Label>::new()]);
}

#[test]
fn boundary_elem_accepts_the_three_stream_markers() {
    let mut alpha = PhonruleAlphabet::empty();
    let f = compile_context_elem(&PhonContextElem::Boundary, &mut alpha, &FstTable::new()).unwrap();
    assert_eq!(accepted(&f), vec![vec![BOUNDARY_LABEL], vec![WORD_START_LABEL], vec![WORD_END_LABEL]]);
}

#[test]
fn word_start_and_end_elems_accept_their_marker() {
    let mut alpha = PhonruleAlphabet::empty();
    let f = compile_context_elem(&PhonContextElem::WordStart, &mut alpha, &FstTable::new()).unwrap();
    assert_eq!(accepted(&f), vec![vec![WORD_START_LABEL]]);
    let g = compile_context_elem(&PhonContextElem::WordEnd, &mut alpha, &FstTable::new()).unwrap();
    assert_eq!(accepted(&g), vec![vec![WORD_END_LABEL]]);
}

#[test]
fn syllable_elems_report_their_kind() {
    let mut alpha = PhonruleAlphabet::empty();
    let table = FstTable::new();
    let cases = vec![
        (PhonContextElem::SylHead, "%syl<head>%"),
        (PhonContextElem::SylTail, "%syl<tail>%"),
        (PhonContextElem::SylIndex(SylSpec::Index(2)), "%syl<#N>%"),
    ];
    for (elem, kind) in cases {
        let err = compile_context_elem(&elem, &mut alpha, &table).unwrap_err();
        assert_eq!(err, ContextCompileError::SyllableElemUnsupported { kind: kind.to_string() });
    }
}

#[test]
fn unknown_negated_class_names_the_complement_key() {
    let mut alpha = PhonruleAlphabet::empty();
    let elem = PhonContextElem::Atom(PhonAtom::NegClass(ident("v")), Quantifier::Exact(1));
    let err = compile_context_elem(&elem, &mut alpha, &FstTable::new()).unwrap_err();
    assert_eq!(err, ContextCompileError::UnknownClass { name: "!v".to_string() });
}
