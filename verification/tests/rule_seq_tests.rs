use hubullu::ast::{PhonAtom, PhonContextElem, Quantifier};
use hubullu::fst::phonrule::rule_seq::{phonrule_bounds_hold, rule_bounds_hold};
use hubullu::ast::{
    CharClassBody, CharClassDef, PhonApply, PhonBodyItem, PhonPattern, PhonReplacement, PhonRewriteRule, PhonRule,
    Span, Spanned, StringLit,
};
use hubullu::fst::alphabet::PhonruleAlphabet;
use hubullu::fst::machine::{num_states, paths, Fst};
use hubullu::fst::table::FstTable;
use hubullu::fst::phonrule::apply::apply_phonrule_fst;
use hubullu::fst::phonrule::class::{compile_class, compile_class_complement, ClassCompileError};
use hubullu::fst::phonrule::replace::RewriteEngineOptions;
use hubullu::fst::phonrule::rule_seq::{
    compile_phonrule, compile_phonrule_with_options, PhonRuleAstResolver, PhonRuleTable, RuleSeqCompileError,
};
use hubullu::span::FileId;

fn sp() -> Span {
    Span { file_id: FileId(0), start: 0, end: 0 }
}

fn id(s: &str) -> Spanned<String> {
    Spanned::new(s.to_string(), sp())
}

fn lit(s: &str) -> StringLit {
    Spanned::new(s.to_string(), sp())
}

fn phonrule(name: &str, classes: Vec<CharClassDef>, body: Vec<PhonBodyItem>) -> PhonRule {
    PhonRule {
        name: id(name),
        display: Vec::new(),
        derived_from: None,
        syllable: None,
        classes,
        maps: Vec::new(),
        body,
        span: sp(),
    }
}

fn rewrite(from: &str, to: &str) -> PhonBodyItem {
    PhonBodyItem::Rewrite(PhonRewriteRule {
        from: PhonPattern::Literal(lit(from)),
        to: PhonReplacement::Literal(lit(to)),
        context: None,
        span: sp(),
    })
}

fn apply(name: &str) -> PhonBodyItem {
    PhonBodyItem::Apply(PhonApply { rule: id(name), span: sp() })
}

fn alpha_for(chars: &[&str]) -> PhonruleAlphabet {
    let mut alpha = PhonruleAlphabet::empty();
    for c in chars {
        alpha.intern(c);
    }
    alpha
}

#[test]
fn empty_body_is_identity() {
    let p = phonrule("noop", Vec::new(), Vec::new());
    let mut alpha = alpha_for(&["a", "b"]);
    let f = compile_phonrule(&p, &PhonRuleTable::new(), &mut alpha).expect("compile");
    assert_eq!(num_states(&f), 1);
    assert_eq!(apply_phonrule_fst(&f, "abba", &mut alpha, 8).unwrap(), "abba");
}

#[test]
fn body_items_compose_in_order() {
    let p = phonrule("seq", Vec::new(), vec![rewrite("a", "b"), rewrite("b", "c")]);
    let mut alpha = alpha_for(&["a", "b", "c", "d"]);
    let f = compile_phonrule(&p, &PhonRuleTable::new(), &mut alpha).expect("compile");
    assert_eq!(apply_phonrule_fst(&f, "dad", &mut alpha, 8).unwrap(), "dcd");
}

#[test]
fn apply_chain_resolves_through_table() {
    let inner = phonrule("inner", Vec::new(), vec![rewrite("a", "b")]);
    let mut table = PhonRuleTable::new();
    table.insert("inner".to_string(), inner);
    assert!(table.resolve("inner").is_some());
    assert!(table.resolve("other").is_none());
    let outer = phonrule("outer", Vec::new(), vec![apply("inner")]);
    let mut alpha = alpha_for(&["a", "b"]);
    let f = compile_phonrule(&outer, &table, &mut alpha).expect("compile");
    assert_eq!(apply_phonrule_fst(&f, "aba", &mut alpha, 8).unwrap(), "bbb");
}

#[test]
fn unknown_apply_target_is_reported() {
    let outer = phonrule("outer", Vec::new(), vec![apply("missing")]);
    let mut alpha = alpha_for(&["a"]);
    let err = compile_phonrule(&outer, &PhonRuleTable::new(), &mut alpha).unwrap_err();
    assert_eq!(err, RuleSeqCompileError::UnknownPhonrule { name: "missing".to_string() });
}

#[test]
fn apply_cycle_is_reported_with_its_path() {
    let mut table = PhonRuleTable::new();
    table.insert("p".to_string(), phonrule("p", Vec::new(), vec![apply("q")]));
    table.insert("q".to_string(), phonrule("q", Vec::new(), vec![apply("p")]));
    let root = phonrule("p", Vec::new(), vec![apply("q")]);
    let mut alpha = alpha_for(&["a"]);
    let err = compile_phonrule(&root, &table, &mut alpha).unwrap_err();
    assert_eq!(
        err,
        RuleSeqCompileError::ApplyCycle { path: vec!["p".to_string(), "q".to_string(), "p".to_string()] }
    );
}

#[test]
fn class_union_of_unknown_class_is_a_class_error() {
    let bad = CharClassDef { name: id("V"), body: CharClassBody::Union(vec![id("missing")]) };
    let p = phonrule("p", vec![bad], Vec::new());
    let mut alpha = alpha_for(&["a"]);
    let err = compile_phonrule(&p, &PhonRuleTable::new(), &mut alpha).unwrap_err();
    assert_eq!(
        err,
        RuleSeqCompileError::Class(ClassCompileError::UnknownClass {
            referrer: "V".to_string(),
            target: "missing".to_string()
        })
    );
}

#[test]
fn forced_bracketed_construction_agrees_on_a_simple_rule() {
    let p = phonrule("p", Vec::new(), vec![rewrite("a", "b")]);
    let mut alpha = alpha_for(&["a", "b", "c"]);
    let f = compile_phonrule_with_options(&p, &PhonRuleTable::new(), &mut alpha, RewriteEngineOptions { force_strategy_b: true })
        .expect("compile");
    assert_eq!(apply_phonrule_fst(&f, "cac", &mut alpha, 8).unwrap(), "cbc");
}

#[test]
fn bounds_checks_reject_reversed_repeat() {
    let rule = |q: Quantifier| PhonRewriteRule {
        from: PhonPattern::Range(vec![PhonContextElem::Atom(PhonAtom::Literal(lit("a")), q)]),
        to: PhonReplacement::Literal(lit("b")),
        context: None,
        span: sp(),
    };
    assert!(rule_bounds_hold(&rule(Quantifier::Range(1, 2))));
    assert!(!rule_bounds_hold(&rule(Quantifier::Range(3, 2))));
    let good = phonrule("g", vec![], vec![PhonBodyItem::Rewrite(rule(Quantifier::Range(2, 2)))]);
    let bad = phonrule("p", vec![], vec![PhonBodyItem::Rewrite(rule(Quantifier::Range(3, 2)))]);
    assert!(phonrule_bounds_hold(&good));
    assert!(!phonrule_bounds_hold(&bad));
    let t = PhonRuleTable { entries: vec![("g".to_string(), good), ("p".to_string(), bad)] };
    assert!(!t.bounds_hold());
    assert!(PhonRuleTable::new().bounds_hold());
}

#[test]
fn union_class_and_its_complement_split_sigma() {
    let mut alpha = PhonruleAlphabet::empty();
    let mut table = FstTable::new();
    let front = CharClassDef { name: id("front"), body: CharClassBody::List(vec![lit("e"), lit("i")]) };
    let back = CharClassDef { name: id("back"), body: CharClassBody::List(vec![lit("a"), lit("o")]) };
    let f_front = compile_class(&front, &mut alpha, &table).unwrap();
    table.insert("front".to_string(), f_front);
    let f_back = compile_class(&back, &mut alpha, &table).unwrap();
    table.insert("back".to_string(), f_back);
    alpha.intern("k");
    let v = CharClassDef { name: id("V"), body: CharClassBody::Union(vec![id("front"), id("back")]) };
    let inputs = |f: &Fst| {
        let mut ls: Vec<u32> = paths(f, 64).into_iter().map(|p| p.input[0]).collect();
        ls.sort();
        ls
    };
    let members = inputs(&compile_class(&v, &mut alpha, &table).unwrap());
    let others = inputs(&compile_class_complement(&v, &mut alpha, &table).unwrap());
    let l = |s: &str| alpha.lookup(s).unwrap();
    let mut want = vec![l("e"), l("i"), l("a"), l("o")];
    want.sort();
    assert_eq!(members, want);
    assert_eq!(others, vec![l("k")]);
}

#[test]
fn empty_body_with_resolvable_classes_compiles_to_identity() {
    let vowels = CharClassDef { name: id("V"), body: CharClassBody::List(vec![lit("a"), lit("e")]) };
    let both = CharClassDef { name: id("W"), body: CharClassBody::Union(vec![id("V")]) };
    let p = phonrule("p", vec![vowels, both], Vec::new());
    let mut alpha = alpha_for(&["a", "e", "k"]);
    let f = compile_phonrule(&p, &PhonRuleTable::new(), &mut alpha).expect("classes resolve");
    let k = alpha.lookup("k").unwrap();
    let out: Vec<Vec<u32>> = paths(&f, 8).into_iter().filter(|p| p.input == vec![k]).map(|p| p.output).collect();
    assert_eq!(out, vec![vec![k]]);
}

#[test]
fn class_referring_to_a_later_class_is_a_class_error() {
    let early = CharClassDef { name: id("W"), body: CharClassBody::Union(vec![id("V")]) };
    let later = CharClassDef { name: id("V"), body: CharClassBody::List(vec![lit("a")]) };
    let p = phonrule("p", vec![early, later], vec![rewrite("a", "e")]);
    let mut alpha = alpha_for(&["a", "e"]);
    let err = compile_phonrule(&p, &PhonRuleTable::new(), &mut alpha).unwrap_err();
    assert_eq!(
        err,
        RuleSeqCompileError::Class(ClassCompileError::UnknownClass { referrer: "W".to_string(), target: "V".to_string() })
    );
}

#[test]
fn unknown_apply_target_inside_an_applied_phonrule_is_reported() {
    let mut table = PhonRuleTable::new();
    table.insert("inner".to_string(), phonrule("inner", Vec::new(), vec![apply("missing")]));
    let outer = phonrule("outer", Vec::new(), vec![rewrite("a", "e"), apply("inner")]);
    let mut alpha = alpha_for(&["a", "e"]);
    let err = compile_phonrule(&outer, &table, &mut alpha).unwrap_err();
    assert_eq!(err, RuleSeqCompileError::UnknownPhonrule { name: "missing".to_string() });
}

#[test]
fn self_apply_cycle_path_is_the_rule_twice() {
    let p = phonrule("A", Vec::new(), vec![apply("A")]);
    let mut table = PhonRuleTable::new();
    table.insert("A".to_string(), p.clone());
    let mut alpha = alpha_for(&["a"]);
    let err = compile_phonrule(&p, &table, &mut alpha).unwrap_err();
    assert_eq!(err, RuleSeqCompileError::ApplyCycle { path: vec!["A".to_string(), "A".to_string()] });
}
