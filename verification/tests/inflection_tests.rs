use hubullu::ast::{
    AxisConstraint, AxisFilter, ComposeBody, ComposeExpr, Entry, Headword, Ident, Inflection, InflectionBody,
    LazyMatching, MeaningDef, RulesBody, SlotBody, SlotDef, SlotKind, SlotQuantifier, Span, Spanned, StemReq,
    StringLit, TagCondition,
};
use hubullu::fst::alphabet::PhonruleAlphabet;
use hubullu::fst::inflection::chain::{build_chain_fst, ChainCompileError};
use hubullu::fst::inflection::slot::{
    build_eager_slot_stub, build_lazy_slot_fst, build_morpheme_fst_cache, build_stem_anchor_stub, entry_fits,
};
use hubullu::fst::inflection::{compile_inflection_fst, InflectionCompileError};
use hubullu::fst::machine::{num_states, paths, Fst};
use hubullu::fst::serial::{deserialize, serialize};
use hubullu::fst::table::FstTable;
use hubullu::span::FileId;

fn sp() -> Span {
    Span { file_id: FileId(0), start: 0, end: 0 }
}

fn ident(name: &str) -> Ident {
    Spanned::new(name.to_string(), sp())
}

fn slit(s: &str) -> StringLit {
    Spanned::new(s.to_string(), sp())
}

fn tag(axis: &str, value: &str) -> TagCondition {
    TagCondition { axis: ident(axis), value: ident(value) }
}

fn morph_entry(name: &str, headword: &str, tags: Vec<TagCondition>) -> Entry {
    Entry {
        name: ident(name),
        headword: Headword::Simple(slit(headword)),
        tags,
        stems: Vec::new(),
        inflection: None,
        meaning: MeaningDef::Single(slit("")),
        forms_override: Vec::new(),
        etymology: None,
        examples: Vec::new(),
        is_peripheral: false,
    }
}

fn turkish_morphemes() -> Vec<Entry> {
    vec![
        morph_entry("neg_pc", "mi", vec![tag("negation", "neg"), tag("tense", "present_cont")]),
        morph_entry("neg_pst", "me", vec![tag("negation", "neg"), tag("tense", "past")]),
        morph_entry("tns_pc", "iyor", vec![tag("tense", "present_cont")]),
        morph_entry("tns_pst", "di", vec![tag("tense", "past")]),
        morph_entry("pn_pc_1sg", "um", vec![tag("tense", "present_cont"), tag("person", "1"), tag("number", "sg")]),
        morph_entry("pn_pc_2sg", "sun", vec![tag("tense", "present_cont"), tag("person", "2"), tag("number", "sg")]),
        morph_entry("pn_pc_1pl", "uz", vec![tag("tense", "present_cont"), tag("person", "1"), tag("number", "pl")]),
        morph_entry("pn_pc_2pl", "sunuz", vec![tag("tense", "present_cont"), tag("person", "2"), tag("number", "pl")]),
        morph_entry("pn_pc_3pl", "lar", vec![tag("tense", "present_cont"), tag("person", "3"), tag("number", "pl")]),
        morph_entry("pn_pst_1sg", "m", vec![tag("tense", "past"), tag("person", "1"), tag("number", "sg")]),
        morph_entry("pn_pst_2sg", "n", vec![tag("tense", "past"), tag("person", "2"), tag("number", "sg")]),
        morph_entry("pn_pst_1pl", "k", vec![tag("tense", "past"), tag("person", "1"), tag("number", "pl")]),
        morph_entry("pn_pst_2pl", "niz", vec![tag("tense", "past"), tag("person", "2"), tag("number", "pl")]),
        morph_entry("pn_pst_3pl", "ler", vec![tag("tense", "past"), tag("person", "3"), tag("number", "pl")]),
    ]
}

fn slot_lazy(name: &str, matching: LazyMatching) -> SlotDef {
    SlotDef { name: ident(name), body: SlotBody::Lazy(matching), kind: SlotKind::Normal, span: sp() }
}

fn slot_eager(name: &str) -> SlotDef {
    SlotDef { name: ident(name), body: SlotBody::Eager(Vec::new()), kind: SlotKind::Normal, span: sp() }
}

fn any_axis(axis: &str) -> AxisFilter {
    AxisFilter { axis: ident(axis), constraint: AxisConstraint::Any }
}

fn lazy_fst(slot: &SlotDef, refs: &[&Entry], cache: &FstTable) -> Fst {
    match &slot.body {
        SlotBody::Lazy(m) => build_lazy_slot_fst(slot, m, refs, cache).expect("build_lazy_slot_fst"),
        _ => unreachable!(),
    }
}

#[test]
fn t03_tense_sfx_slot_accepts_both_tense_morphemes() {
    let entries: Vec<Entry> = turkish_morphemes();
    let refs: Vec<&Entry> = entries.iter().collect();
    let mut alpha = PhonruleAlphabet::empty();
    let morpheme_fsts = build_morpheme_fst_cache(&refs, &mut alpha).expect("build_morpheme_fst_cache");
    let tense_sfx = slot_lazy("tense_sfx", LazyMatching::Filter(vec![any_axis("tense")]));
    let slot_fst = lazy_fst(&tense_sfx, &refs, &morpheme_fsts);
    let found_input_labels: Vec<Vec<u32>> = paths(&slot_fst, 64).into_iter().map(|p| p.input).collect();
    assert!(!found_input_labels.is_empty(), "tense_sfx slot's FST had no accepting paths");
    let tns_pc_lbl = alpha.lookup_morpheme("tns_pc").expect("tns_pc interned");
    let tns_pst_lbl = alpha.lookup_morpheme("tns_pst").expect("tns_pst interned");
    let labels: std::collections::HashSet<u32> = found_input_labels.iter().flat_map(|p| p.iter().copied()).collect();
    assert!(labels.contains(&tns_pc_lbl), "tense_sfx slot missing tns_pc path");
    assert!(labels.contains(&tns_pst_lbl), "tense_sfx slot missing tns_pst path");
}

#[test]
fn t04_compose_chain_builds_short_path() {
    let entries: Vec<Entry> = turkish_morphemes();
    let refs: Vec<&Entry> = entries.iter().collect();
    let mut alpha = PhonruleAlphabet::empty();
    let morpheme_fsts = build_morpheme_fst_cache(&refs, &mut alpha).expect("morpheme cache");
    let tense_sfx = slot_lazy("tense_sfx", LazyMatching::Filter(vec![any_axis("tense")]));
    let pn_sfx =
        slot_lazy("pn_sfx", LazyMatching::Filter(vec![any_axis("tense"), any_axis("person"), any_axis("number")]));
    let mut slot_fsts = FstTable::new();
    slot_fsts.insert("tense_sfx".to_string(), lazy_fst(&tense_sfx, &refs, &morpheme_fsts));
    slot_fsts.insert("pn_sfx".to_string(), lazy_fst(&pn_sfx, &refs, &morpheme_fsts));
    let mut stem_fsts = FstTable::new();
    stem_fsts.insert("root".to_string(), build_stem_anchor_stub("root", &alpha).expect("stem stub"));
    let chain = ComposeExpr::Concat(vec![
        ComposeExpr::Slot { name: ident("root"), quantifier: SlotQuantifier::One },
        ComposeExpr::Slot { name: ident("tense_sfx"), quantifier: SlotQuantifier::One },
        ComposeExpr::Slot { name: ident("pn_sfx"), quantifier: SlotQuantifier::One },
    ]);
    let no_phonrules = FstTable::new();
    let chain_fst = build_chain_fst(&chain, &slot_fsts, &stem_fsts, &no_phonrules).expect("build_chain_fst");
    assert!(num_states(&chain_fst) > 0, "chain FST empty");
}

#[test]
fn t05_optional_quantifier_admits_empty_path() {
    let entries: Vec<Entry> = turkish_morphemes();
    let refs: Vec<&Entry> = entries.iter().collect();
    let mut alpha = PhonruleAlphabet::empty();
    let morpheme_fsts = build_morpheme_fst_cache(&refs, &mut alpha).expect("morpheme cache");
    let neg_sfx = slot_lazy("neg_sfx", LazyMatching::Filter(vec![any_axis("negation"), any_axis("tense")]));
    let mut slot_fsts = FstTable::new();
    slot_fsts.insert("neg_sfx".to_string(), lazy_fst(&neg_sfx, &refs, &morpheme_fsts));
    let stem_fsts = FstTable::new();
    let no_phonrules = FstTable::new();
    let chain = ComposeExpr::Slot { name: ident("neg_sfx"), quantifier: SlotQuantifier::ZeroOrOne };
    let chain_fst = build_chain_fst(&chain, &slot_fsts, &stem_fsts, &no_phonrules).expect("build_chain_fst");
    let found_empty = paths(&chain_fst, 64).iter().any(|p| p.input.is_empty() && p.output.is_empty());
    assert!(found_empty, "optional slot must produce at least one accepting empty path");
}

#[test]
fn t07_serialize_round_trip_preserves_structure() {
    let entries: Vec<Entry> = turkish_morphemes();
    let refs: Vec<&Entry> = entries.iter().collect();
    let mut alpha = PhonruleAlphabet::empty();
    let morpheme_fsts = build_morpheme_fst_cache(&refs, &mut alpha).expect("morpheme cache");
    let tense_sfx = slot_lazy("tense_sfx", LazyMatching::Filter(vec![any_axis("tense")]));
    let slot_fst = lazy_fst(&tense_sfx, &refs, &morpheme_fsts);
    let bytes = serialize(&slot_fst);
    let restored = deserialize(&bytes).expect("deserialize");
    let count_orig = paths(&slot_fst, 128).len();
    let count_rest = paths(&restored, 128).len();
    assert_eq!(count_orig, count_rest, "round-tripped FST has different path count");
    assert_eq!(num_states(&slot_fst), num_states(&restored));
}

#[test]
fn t08_eager_slot_stub_builds_without_error() {
    let alpha = PhonruleAlphabet::empty();
    let s = slot_eager("result_sfx");
    let fst = build_eager_slot_stub(&s, &alpha).expect("eager stub");
    assert!(num_states(&fst) >= 1);
    let ps = paths(&fst, 4);
    for p in &ps {
        assert!(p.input.is_empty() && p.output.is_empty());
    }
    assert_eq!(ps.len(), 1, "eager stub should yield exactly one empty path");
}

#[test]
fn t09_inflection_with_no_slots_compiles() {
    let inflection = Inflection {
        name: ident("trivial"),
        display: Vec::new(),
        axes: Vec::new(),
        required_stems: vec![StemReq { name: ident("root"), constraint: Vec::new() }],
        body: InflectionBody::Compose(ComposeBody {
            chain: ComposeExpr::Slot { name: ident("root"), quantifier: SlotQuantifier::One },
            slots: Vec::new(),
            overrides: Vec::new(),
        }),
    };
    let mut alpha = PhonruleAlphabet::empty();
    alpha.intern("a");
    let no_morphemes: Vec<&Entry> = Vec::new();
    let no_phonrules = FstTable::new();
    let fst = compile_inflection_fst(&inflection, &no_morphemes, &no_phonrules, &mut alpha).expect("compile_inflection_fst");
    assert!(num_states(&fst) > 0);
}

#[test]
fn t10_unknown_slot_in_chain_produces_clean_error() {
    let inflection = Inflection {
        name: ident("broken"),
        display: Vec::new(),
        axes: Vec::new(),
        required_stems: vec![StemReq { name: ident("root"), constraint: Vec::new() }],
        body: InflectionBody::Compose(ComposeBody {
            chain: ComposeExpr::Slot { name: ident("nonexistent"), quantifier: SlotQuantifier::One },
            slots: Vec::new(),
            overrides: Vec::new(),
        }),
    };
    let mut alpha = PhonruleAlphabet::empty();
    let no_morphemes: Vec<&Entry> = Vec::new();
    let no_phonrules = FstTable::new();
    let err = compile_inflection_fst(&inflection, &no_morphemes, &no_phonrules, &mut alpha)
        .expect_err("expected UnknownSlot error");
    assert!(matches!(
        err,
        InflectionCompileError::Chain(ChainCompileError::UnknownSlot { ref slot_name }) if slot_name == "nonexistent"
    ));
}

#[test]
fn t11_rules_body_is_rejected() {
    let inflection = Inflection {
        name: ident("rule_based"),
        display: Vec::new(),
        axes: Vec::new(),
        required_stems: Vec::new(),
        body: InflectionBody::Rules(RulesBody { apply: None, rules: Vec::new() }),
    };
    let mut alpha = PhonruleAlphabet::empty();
    let no_morphemes: Vec<&Entry> = Vec::new();
    let no_phonrules = FstTable::new();
    let err =
        compile_inflection_fst(&inflection, &no_morphemes, &no_phonrules, &mut alpha).expect_err("expected NotComposeBody");
    assert!(matches!(
        err,
        InflectionCompileError::NotComposeBody { ref inflection_name } if inflection_name == "rule_based"
    ));
}

#[test]
fn t12_unknown_phonrule_in_chain_produces_clean_error() {
    let chain = ComposeExpr::PhonApply {
        rule: ident("missing_rule"),
        inner: Box::new(ComposeExpr::Slot { name: ident("root"), quantifier: SlotQuantifier::One }),
    };
    let inflection = Inflection {
        name: ident("missing_phonrule"),
        display: Vec::new(),
        axes: Vec::new(),
        required_stems: vec![StemReq { name: ident("root"), constraint: Vec::new() }],
        body: InflectionBody::Compose(ComposeBody { chain, slots: Vec::new(), overrides: Vec::new() }),
    };
    let mut alpha = PhonruleAlphabet::empty();
    let no_morphemes: Vec<&Entry> = Vec::new();
    let no_phonrules = FstTable::new();
    let err = compile_inflection_fst(&inflection, &no_morphemes, &no_phonrules, &mut alpha)
        .expect_err("expected UnknownPhonrule");
    assert!(matches!(
        err,
        InflectionCompileError::Chain(ChainCompileError::UnknownPhonrule { ref rule_name }) if rule_name == "missing_rule"
    ));
}

#[test]
fn t13_bounded_quantifier_wraps_correctly() {
    let entries: Vec<Entry> = turkish_morphemes();
    let refs: Vec<&Entry> = entries.iter().collect();
    let mut alpha = PhonruleAlphabet::empty();
    let morpheme_fsts = build_morpheme_fst_cache(&refs, &mut alpha).expect("morpheme cache");
    let tense_sfx = slot_lazy("tense_sfx", LazyMatching::Filter(vec![any_axis("tense")]));
    let mut slot_fsts = FstTable::new();
    slot_fsts.insert("tense_sfx".to_string(), lazy_fst(&tense_sfx, &refs, &morpheme_fsts));
    let stem_fsts = FstTable::new();
    let no_phonrules = FstTable::new();
    let chain = ComposeExpr::Slot { name: ident("tense_sfx"), quantifier: SlotQuantifier::Bounded { min: 0, max: 2 } };
    let chain_fst = build_chain_fst(&chain, &slot_fsts, &stem_fsts, &no_phonrules).expect("bounded compile");
    let found_empty = paths(&chain_fst, 64).iter().any(|p| p.input.is_empty() && p.output.is_empty());
    assert!(found_empty, "Bounded {{min=0,max=2}} must accept the empty path");
}

#[test]
fn t14_lazy_slot_with_no_matches_builds_empty_acceptor() {
    let entries: Vec<Entry> = turkish_morphemes();
    let refs: Vec<&Entry> = entries.iter().collect();
    let mut alpha = PhonruleAlphabet::empty();
    let morpheme_fsts = build_morpheme_fst_cache(&refs, &mut alpha).expect("morpheme cache");
    let weird = slot_lazy("weird", LazyMatching::Filter(vec![any_axis("nonexistent_axis")]));
    let slot_fst = lazy_fst(&weird, &refs, &morpheme_fsts);
    assert!(num_states(&slot_fst) >= 1);
    let ps = paths(&slot_fst, 4);
    for p in &ps {
        assert!(p.input.is_empty() && p.output.is_empty());
    }
    assert_eq!(ps.len(), 1, "ε-acceptor should yield exactly one empty path");
}

#[test]
fn t15_empty_concat_produces_clean_error() {
    let chain = ComposeExpr::Concat(Vec::new());
    let slot_fsts = FstTable::new();
    let stem_fsts = FstTable::new();
    let no_phonrules = FstTable::new();
    let err = build_chain_fst(&chain, &slot_fsts, &stem_fsts, &no_phonrules).expect_err("expected EmptyConcat");
    assert!(matches!(err, ChainCompileError::EmptyConcat));
}

#[test]
fn filter_requires_every_axis() {
    let entries = turkish_morphemes();
    let pn = LazyMatching::Filter(vec![any_axis("tense"), any_axis("person")]);
    assert!(!entry_fits(&entries[2], &pn));
    assert!(entry_fits(&entries[4], &pn));
    assert!(entry_fits(&entries[2], &LazyMatching::CatchAll));
}

#[test]
fn lazy_slot_fitting_inflected_entry_is_reported() {
    let mut entries = turkish_morphemes();
    entries[2].inflection = Some(hubullu::ast::EntryInflection::Class(ident("verb")));
    let refs: Vec<&Entry> = entries.iter().collect();
    let mut alpha = PhonruleAlphabet::empty();
    let cache = build_morpheme_fst_cache(&refs, &mut alpha).expect("cache");
    let slot = slot_lazy("tense_sfx", LazyMatching::Filter(vec![any_axis("tense")]));
    let r = match &slot.body {
        SlotBody::Lazy(m) => build_lazy_slot_fst(&slot, m, &refs, &cache),
        _ => unreachable!(),
    };
    assert!(r.is_err());
}

#[test]
fn bounded_with_min_above_max_is_backend_error() {
    let alpha = PhonruleAlphabet::empty();
    let mut slot_fsts = FstTable::new();
    slot_fsts.insert("s".to_string(), build_eager_slot_stub(&slot_eager("s"), &alpha).unwrap());
    let chain = ComposeExpr::Slot { name: ident("s"), quantifier: SlotQuantifier::Bounded { min: 3, max: 1 } };
    let err = build_chain_fst(&chain, &slot_fsts, &FstTable::new(), &FstTable::new()).unwrap_err();
    assert!(matches!(err, ChainCompileError::Backend(_)));
}
