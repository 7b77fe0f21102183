use std::collections::HashSet;

use hubullu::ast::{Entry, EntryInflection, Headword, Ident, MeaningDef, Span, Spanned, StringLit, TagCondition};
use hubullu::fst::alphabet::{PhonruleAlphabet, FIRST_MORPHEME_LABEL};
use hubullu::fst::backend::Label;
use hubullu::fst::lexicon::{compile_lexicon, compile_morpheme, lexicon_surface, LexiconCompileError, LexiconLookupError};
use hubullu::fst::machine::{arc_sort_output, compose, num_states, paths};
use hubullu::fst::phonrule::brackets::intro_brackets;
use hubullu::fst::serial::{deserialize, serialize};
use hubullu::span::FileId;

fn span() -> Span {
    Span { file_id: FileId(0), start: 0, end: 0 }
}

fn ident(name: &str) -> Ident {
    Spanned::new(name.to_string(), span())
}

fn slit(s: &str) -> StringLit {
    Spanned::new(s.to_string(), span())
}

fn morph_entry(name: &str, headword: &str) -> Entry {
    Entry {
        name: ident(name),
        headword: Headword::Simple(slit(headword)),
        tags: Vec::<TagCondition>::new(),
        stems: Vec::new(),
        inflection: None,
        meaning: MeaningDef::Single(slit("")),
        forms_override: Vec::new(),
        etymology: None,
        examples: Vec::new(),
        is_peripheral: false,
    }
}

fn surface_of(e: &Entry) -> String {
    match &e.headword {
        Headword::Simple(s) => s.node.clone(),
        Headword::MultiScript(v) => v[0].1.node.clone(),
    }
}

fn turkish_morphemes() -> Vec<Entry> {
    vec![
        morph_entry("neg_pc", "mi"),
        morph_entry("neg_pst", "me"),
        morph_entry("tns_pc", "iyor"),
        morph_entry("tns_pst", "di"),
        morph_entry("pn_pc_1sg", "um"),
        morph_entry("pn_pc_2sg", "sun"),
        morph_entry("pn_pc_1pl", "uz"),
        morph_entry("pn_pc_2pl", "sunuz"),
        morph_entry("pn_pc_3pl", "lar"),
        morph_entry("pn_pst_1sg", "m"),
        morph_entry("pn_pst_2sg", "n"),
        morph_entry("pn_pst_1pl", "k"),
        morph_entry("pn_pst_2pl", "niz"),
        morph_entry("pn_pst_3pl", "ler"),
    ]
}

#[test]
fn t01_single_morpheme_compile_and_lookup() {
    let mut alpha = PhonruleAlphabet::empty();
    let e = morph_entry("neg_pc", "mi");
    let lex = compile_lexicon(&[&e], &mut alpha).unwrap();
    let lbl = alpha.lookup_morpheme("neg_pc").unwrap();
    let s = lexicon_surface(&lex, lbl, &alpha).unwrap();
    assert_eq!(s, "mi");
}

#[test]
fn t02_three_morphemes_distinct_surfaces() {
    let mut alpha = PhonruleAlphabet::empty();
    let e1 = morph_entry("neg_pc", "mi");
    let e2 = morph_entry("neg_pst", "me");
    let e3 = morph_entry("tns_pc", "iyor");
    let lex = compile_lexicon(&[&e1, &e2, &e3], &mut alpha).unwrap();
    for (name, expected) in [("neg_pc", "mi"), ("neg_pst", "me"), ("tns_pc", "iyor")] {
        let lbl = alpha.lookup_morpheme(name).unwrap();
        assert_eq!(lexicon_surface(&lex, lbl, &alpha).unwrap(), expected);
    }
}

#[test]
fn t03_empty_surface_yields_empty_string() {
    let mut alpha = PhonruleAlphabet::empty();
    let e = morph_entry("zero_morph", "");
    let lex = compile_lexicon(&[&e], &mut alpha).unwrap();
    let lbl = alpha.lookup_morpheme("zero_morph").unwrap();
    let s = lexicon_surface(&lex, lbl, &alpha).unwrap();
    assert_eq!(s, "");
}

#[test]
fn t04_multi_char_surface() {
    let mut alpha = PhonruleAlphabet::empty();
    let e = morph_entry("pn_pc_2pl", "sunuz");
    let lex = compile_lexicon(&[&e], &mut alpha).unwrap();
    let lbl = alpha.lookup_morpheme("pn_pc_2pl").unwrap();
    assert_eq!(lexicon_surface(&lex, lbl, &alpha).unwrap(), "sunuz");
}

#[test]
fn t05_two_morphemes_same_surface_distinct_ids() {
    let mut alpha = PhonruleAlphabet::empty();
    let e1 = morph_entry("loc_sg", "də");
    let e2 = morph_entry("abl_sg", "də");
    let lex = compile_lexicon(&[&e1, &e2], &mut alpha).unwrap();
    let l1 = alpha.lookup_morpheme("loc_sg").unwrap();
    let l2 = alpha.lookup_morpheme("abl_sg").unwrap();
    assert_ne!(l1, l2);
    assert_eq!(lexicon_surface(&lex, l1, &alpha).unwrap(), "də");
    assert_eq!(lexicon_surface(&lex, l2, &alpha).unwrap(), "də");
}

#[test]
fn t06_serialize_mmap_round_trip_preserves_lookup() {
    let mut alpha = PhonruleAlphabet::empty();
    let entries: Vec<Entry> = turkish_morphemes();
    let refs: Vec<&Entry> = entries.iter().collect();
    let lex = compile_lexicon(&refs, &mut alpha).unwrap();
    let bytes = serialize(&lex);
    let restored = deserialize(&bytes).unwrap();
    for entry in &entries {
        let lbl = alpha.lookup_morpheme(&entry.name.node).unwrap();
        let expected = surface_of(entry);
        let actual = lexicon_surface(&restored, lbl, &alpha).unwrap();
        assert_eq!(actual, expected, "morpheme '{}' surface after round-trip", entry.name.node);
    }
    let lbl = alpha.lookup_morpheme("tns_pst").unwrap();
    assert_eq!(lexicon_surface(&restored, lbl, &alpha).unwrap(), "di");
}

#[test]
fn t07_compose_with_intro_brackets_succeeds() {
    let mut alpha = PhonruleAlphabet::empty();
    let e = morph_entry("neg_pc", "mi");
    let lex = compile_lexicon(&[&e], &mut alpha).unwrap();
    assert!(alpha.sigma_len() >= 2);
    let brackets = intro_brackets(&alpha);
    let left = arc_sort_output(&brackets);
    let composed = compose(&left, &lex);
    assert!(composed.start.is_some(), "compose(intro_brackets, lexicon) must succeed");
}

#[test]
fn t08_real_turkish_lexicon_all_lookups() {
    let mut alpha = PhonruleAlphabet::empty();
    let entries: Vec<Entry> = turkish_morphemes();
    let refs: Vec<&Entry> = entries.iter().collect();
    let lex = compile_lexicon(&refs, &mut alpha).unwrap();
    for entry in &entries {
        let lbl = alpha.lookup_morpheme(&entry.name.node).unwrap();
        let expected = surface_of(entry);
        let actual = lexicon_surface(&lex, lbl, &alpha).unwrap();
        assert_eq!(actual, expected, "morpheme '{}' lookup mismatch", entry.name.node);
    }
    assert_eq!(alpha.morpheme_count(), 14);
}

#[test]
fn t09_unknown_id_lookup_returns_error() {
    let mut alpha = PhonruleAlphabet::empty();
    let e = morph_entry("neg_pc", "mi");
    let lex = compile_lexicon(&[&e], &mut alpha).unwrap();
    let bogus_label: Label = FIRST_MORPHEME_LABEL + 999;
    let err = lexicon_surface(&lex, bogus_label, &alpha).unwrap_err();
    assert!(matches!(
        err,
        LexiconLookupError::UnknownMorpheme { morpheme_id_label } if morpheme_id_label == bogus_label
    ));
}

#[test]
fn t10_paths_enumeration_each_morpheme_appears_exactly_once() {
    let mut alpha = PhonruleAlphabet::empty();
    let entries: Vec<Entry> = turkish_morphemes();
    let refs: Vec<&Entry> = entries.iter().collect();
    let lex = compile_lexicon(&refs, &mut alpha).unwrap();
    let mut seen: HashSet<Label> = HashSet::new();
    let mut total: usize = 0;
    for path in paths(&lex, 128) {
        total += 1;
        assert_eq!(path.input.len(), 1, "expected one input label per morpheme path, got {:?}", path.input);
        let lbl = path.input[0];
        assert!(alpha.is_morpheme_label(lbl), "input label {} not in morpheme range", lbl);
        assert!(seen.insert(lbl), "duplicate morpheme path for label {}", lbl);
    }
    assert_eq!(total, entries.len(), "expected one path per morpheme");
    for entry in &entries {
        let lbl = alpha.lookup_morpheme(&entry.name.node).unwrap();
        assert!(seen.contains(&lbl), "missing path for morpheme '{}'", entry.name.node);
    }
}

#[test]
fn t11_compile_morpheme_rejects_inflectional_entry() {
    let mut alpha = PhonruleAlphabet::empty();
    let mut e = morph_entry("verb_with_infl", "go");
    e.inflection = Some(EntryInflection::Class(ident("verb_conj")));
    let err = compile_morpheme(&e, &mut alpha).unwrap_err();
    assert!(matches!(
        err,
        LexiconCompileError::NotAMorpheme { ref entry_name } if entry_name == "verb_with_infl"
    ));
}

#[test]
fn t12_empty_lexicon_returns_error() {
    let mut alpha = PhonruleAlphabet::empty();
    let err = compile_lexicon(&[], &mut alpha).unwrap_err();
    assert!(matches!(err, LexiconCompileError::EmptyLexicon));
}

#[test]
fn t13_turkish_lexicon_size_telemetry() {
    let mut alpha = PhonruleAlphabet::empty();
    let entries: Vec<Entry> = turkish_morphemes();
    let refs: Vec<&Entry> = entries.iter().collect();
    let lex = compile_lexicon(&refs, &mut alpha).unwrap();
    let n = num_states(&lex);
    assert!(n < 200, "Turkish lexicon FST state count regressed: {}", n);
}

#[test]
fn multiscript_headword_prefers_default_script() {
    let mut alpha = PhonruleAlphabet::empty();
    let mut e = morph_entry("m", "");
    e.headword = Headword::MultiScript(vec![(ident("latin"), slit("ab")), (ident("default"), slit("cd"))]);
    let lex = compile_lexicon(&[&e], &mut alpha).unwrap();
    let lbl = alpha.lookup_morpheme("m").unwrap();
    assert_eq!(lexicon_surface(&lex, lbl, &alpha).unwrap(), "cd");
}

#[test]
fn lexicon_rejects_later_inflectional_entry() {
    let mut alpha = PhonruleAlphabet::empty();
    let e1 = morph_entry("a", "x");
    let mut e2 = morph_entry("b", "y");
    e2.inflection = Some(EntryInflection::Class(ident("c")));
    let err = compile_lexicon(&[&e1, &e2], &mut alpha).unwrap_err();
    assert_eq!(err, LexiconCompileError::NotAMorpheme { entry_name: "b".to_string() });
}

#[test]
fn compile_morpheme_builds_one_arc_per_character() {
    let mut alpha = PhonruleAlphabet::empty();
    let e = morph_entry("m", "abc");
    let (l, f) = compile_morpheme(&e, &mut alpha).unwrap();
    assert_eq!(num_states(&f), 4);
    let ps = paths(&f, 8);
    assert_eq!(ps.len(), 1);
    assert_eq!(ps[0].input, vec![l]);
    assert_eq!(ps[0].output, vec![alpha.lookup("a").unwrap(), alpha.lookup("b").unwrap(), alpha.lookup("c").unwrap()]);
}

#[test]
fn compile_morpheme_interns_name_then_characters_in_order() {
    let mut alpha = PhonruleAlphabet::empty();
    let e = morph_entry("pn_pc_1sg", "um");
    let (l, f) = compile_morpheme(&e, &mut alpha).unwrap();
    assert_eq!(l, 65536);
    assert_eq!(num_states(&f), 3);
    let ps = paths(&f, 8);
    assert_eq!(ps.len(), 1);
    assert_eq!(ps[0].input, vec![65536]);
    assert_eq!(ps[0].output, vec![16, 17]);
    assert_eq!(alpha.lookup("u"), Some(16));
    assert_eq!(alpha.lookup("m"), Some(17));
    assert_eq!(alpha.lookup_morpheme("pn_pc_1sg"), Some(65536));
}

#[test]
fn compile_morpheme_error_leaves_alphabet_unchanged() {
    let mut alpha = PhonruleAlphabet::empty();
    alpha.intern("x");
    let before = alpha.sigma_len();
    let mut e = morph_entry("verb_with_infl", "go");
    e.inflection = Some(EntryInflection::Class(ident("verb_conj")));
    assert!(compile_morpheme(&e, &mut alpha).is_err());
    assert_eq!(alpha.sigma_len(), before);
    assert_eq!(alpha.morpheme_count(), 0);
    assert_eq!(alpha.lookup("g"), None);
}
