use hubullu::ast::{PhonPattern, PhonReplacement, PhonRewriteRule, Span, Spanned};
use hubullu::fst::alphabet::PhonruleAlphabet;
use hubullu::fst::phonrule::apply::{apply_phonrule_fst, ApplyError};
use hubullu::fst::phonrule::replace::{compile_rewrite_rule, compile_rewrite_rule_dispatch, RewriteEngineOptions};
use hubullu::fst::table::{ClassMembers, FstTable};
use hubullu::span::FileId;

fn sp() -> Span {
    Span { file_id: FileId(0), start: 0, end: 0 }
}

fn literal_rule(from: &str, to: &str) -> PhonRewriteRule {
    PhonRewriteRule {
        from: PhonPattern::Literal(Spanned::new(from.to_string(), sp())),
        to: PhonReplacement::Literal(Spanned::new(to.to_string(), sp())),
        context: None,
        span: sp(),
    }
}

fn alpha_for(chars: &[&str]) -> PhonruleAlphabet {
    let mut alpha = PhonruleAlphabet::empty();
    for c in chars {
        alpha.intern(c);
    }
    alpha
}

#[test]
fn env_value_selects_the_construction() {
    assert!(!RewriteEngineOptions::from_env_value(None).force_strategy_b);
    assert!(!RewriteEngineOptions::from_env_value(Some("")).force_strategy_b);
    assert!(!RewriteEngineOptions::from_env_value(Some("  0 ")).force_strategy_b);
    assert!(!RewriteEngineOptions::from_env_value(Some("FaLsE")).force_strategy_b);
    assert!(RewriteEngineOptions::from_env_value(Some("1")).force_strategy_b);
    assert!(RewriteEngineOptions::from_env_value(Some("yes")).force_strategy_b);
    assert!(RewriteEngineOptions::from_env_value(Some("00")).force_strategy_b);
}

#[test]
fn dispatch_falls_back_for_self_overlapping_literal() {
    let rule = literal_rule("aa", "x");
    let mut alpha = alpha_for(&["a", "b", "x"]);
    let f = compile_rewrite_rule_dispatch(
        &rule,
        &mut alpha,
        &FstTable::new(),
        &ClassMembers::new(),
        &FstTable::new(),
        RewriteEngineOptions::default(),
    )
    .expect("falls back to the bracketed construction");
    assert_eq!(apply_phonrule_fst(&f, "baab", &mut alpha, 16).unwrap(), "bxb");
}

#[test]
fn bracketed_and_directed_agree_on_a_literal_rule() {
    let rule = literal_rule("ab", "x");
    let mut a1 = alpha_for(&["a", "b", "x"]);
    let direct = compile_rewrite_rule_dispatch(
        &rule,
        &mut a1,
        &FstTable::new(),
        &ClassMembers::new(),
        &FstTable::new(),
        RewriteEngineOptions::default(),
    )
    .unwrap();
    let mut a2 = alpha_for(&["a", "b", "x"]);
    let bracketed = compile_rewrite_rule(&rule, &mut a2, &FstTable::new(), &FstTable::new()).unwrap();
    for input in ["", "ab", "aab", "abab", "ba", "bab"] {
        assert_eq!(
            apply_phonrule_fst(&direct, input, &mut a1, 16).unwrap(),
            apply_phonrule_fst(&bracketed, input, &mut a2, 16).unwrap(),
            "input {:?}",
            input
        );
    }
}

#[test]
fn zero_iterations_is_a_convergence_limit() {
    let rule = literal_rule("a", "b");
    let mut alpha = alpha_for(&["a", "b"]);
    let f = compile_rewrite_rule(&rule, &mut alpha, &FstTable::new(), &FstTable::new()).unwrap();
    let err = apply_phonrule_fst(&f, "a", &mut alpha, 0).unwrap_err();
    assert_eq!(err, ApplyError::ConvergenceLimit { iterations: 0, last_input: "a".to_string() });
}
