use std::collections::HashSet;

use hubullu::ast::{
    CharClassBody, CharClassDef, PhonAtom, PhonContext, PhonContextElem, PhonMapArm, PhonMapBody, PhonMapDef,
    PhonMapElse, PhonMapResult, PhonPattern, PhonReplacement, PhonRewriteRule, Quantifier, Span, Spanned, StringLit,
};
use hubullu::fst::alphabet::PhonruleAlphabet;
use hubullu::fst::backend::{Label, Path};
use hubullu::fst::machine::{arc_sort_input, arc_sort_output, builder, compose, paths, Fst};
use hubullu::fst::phonrule::brackets::{intro_brackets, strip_brackets};
use hubullu::fst::phonrule::class::compile_class;
use hubullu::fst::phonrule::constraint::build_obligatory_constraint;
use hubullu::fst::phonrule::leftmost::build_longest_leftmost_filter;
use hubullu::fst::phonrule::map::compile_map;
use hubullu::fst::phonrule::replacement::build_replacement_transducer;
use hubullu::fst::table::FstTable;
use hubullu::span::FileId;

fn sp() -> Span {
    Span { file_id: FileId(0), start: 0, end: 0 }
}

fn ident(s: &str) -> Spanned<String> {
    Spanned::new(s.to_string(), sp())
}

fn lit(s: &str) -> StringLit {
    Spanned::new(s.to_string(), sp())
}

fn class_list(name: &str, members: &[&str]) -> CharClassDef {
    CharClassDef {
        name: ident(name),
        body: CharClassBody::List(members.iter().map(|m| lit(m)).collect()),
    }
}

fn ctx_literal(s: &str) -> PhonContextElem {
    PhonContextElem::Atom(PhonAtom::Literal(lit(s)), Quantifier::Exact(1))
}

fn rule_with_context(
    from: &str,
    to: &str,
    left: Vec<PhonContextElem>,
    right: Vec<PhonContextElem>,
) -> PhonRewriteRule {
    PhonRewriteRule {
        from: PhonPattern::Literal(lit(from)),
        to: PhonReplacement::Literal(lit(to)),
        context: Some(PhonContext { left, right }),
        span: sp(),
    }
}

fn rule_no_context(from: &str, to: &str) -> PhonRewriteRule {
    PhonRewriteRule {
        from: PhonPattern::Literal(lit(from)),
        to: PhonReplacement::Literal(lit(to)),
        context: None,
        span: sp(),
    }
}

fn rule_to_null(from: &str) -> PhonRewriteRule {
    PhonRewriteRule {
        from: PhonPattern::Literal(lit(from)),
        to: PhonReplacement::Null,
        context: None,
        span: sp(),
    }
}

fn rule_to_map(from: &str, map_name: &str) -> PhonRewriteRule {
    PhonRewriteRule {
        from: PhonPattern::Literal(lit(from)),
        to: PhonReplacement::MapCall(ident(map_name)),
        context: None,
        span: sp(),
    }
}


fn linear_input_acceptor(labels: &[Label]) -> Fst {
    let mut b = builder();
    let mut prev = b.add_state();
    b.set_start(prev).expect("set_start");
    for &l in labels {
        let next = b.add_state();
        b.add_arc(prev, l, l, next).expect("add_arc");
        prev = next;
    }
    b.set_final(prev).expect("set_final");
    b.finish().expect("finish")
}

fn compose_sorted(a: &Fst, b: &Fst) -> Fst {
    compose(&arc_sort_output(a), &arc_sort_input(b))
}

const BOUNDED_PATHS: usize = 4096;

fn bounded_paths(fst: &Fst) -> Vec<Path> {
    paths(fst, BOUNDED_PATHS)
}

fn unique_outputs(paths: &[Path]) -> Vec<Vec<Label>> {
    let mut seen: HashSet<Vec<Label>> = HashSet::new();
    let mut out: Vec<Vec<Label>> = Vec::new();
    for p in paths {
        let key = p.output.clone();
        if seen.insert(key.clone()) {
            out.push(key);
        }
    }
    out
}

fn build_full_pipeline(
    alpha: &PhonruleAlphabet,
    constraint: &Fst,
    repl: &Fst,
    leftmost: &Fst,
) -> Fst {
    let intro = intro_brackets(alpha);
    let strip = strip_brackets(alpha);
    let s1 = compose_sorted(&intro, constraint);
    let s2 = compose_sorted(&s1, repl);
    let s3 = compose_sorted(&s2, leftmost);
    compose_sorted(&s3, &strip)
}

fn run_pipeline(
    alpha: &PhonruleAlphabet,
    constraint: &Fst,
    repl: &Fst,
    leftmost: &Fst,
    input: &Fst,
) -> Vec<Vec<Label>> {
    let chain = build_full_pipeline(alpha, constraint, repl, leftmost);
    let applied = compose_sorted(input, &chain);
    unique_outputs(&bounded_paths(&applied))
}

fn assert_single_output(
    alpha: &PhonruleAlphabet,
    outputs: &[Vec<Label>],
    expected: &[Label],
) {
    let decode = |lbls: &[Label]| -> String {
        lbls.iter()
            .map(|l| alpha.label_to_str(*l).unwrap_or("?").to_string())
            .collect::<Vec<_>>()
            .join("")
    };
    if outputs.len() == 1 && outputs[0].as_slice() == expected {
        return;
    }
    let exp_s = decode(expected);
    let observed: Vec<String> = outputs.iter().map(|o| decode(o)).collect();
    panic!(
        "expected exactly one output '{}' ({:?}); observed {} unique outputs: {:?}",
        exp_s,
        expected,
        outputs.len(),
        observed
    );
}


#[test]
fn leftmost_no_context_aaa_to_bbb() {
    let mut alpha = PhonruleAlphabet::empty();
    let _ = alpha.intern("a");
    let _ = alpha.intern("b");
    let class_table = FstTable::new();
    let map_table = FstTable::new();

    let rule = rule_no_context("a", "b");
    let constraint =
        build_obligatory_constraint(&rule, &mut alpha, &class_table).expect("constraint");
    let repl =
        build_replacement_transducer(&rule, &mut alpha, &class_table, &map_table).expect("repl");
    let leftmost =
        build_longest_leftmost_filter(&rule, &mut alpha, &class_table, &map_table).expect("leftmost");

    let a = alpha.lookup("a").unwrap();
    let b = alpha.lookup("b").unwrap();
    let input = linear_input_acceptor(&[a, a, a]);
    let outputs = run_pipeline(&alpha, &constraint, &repl, &leftmost, &input);
    assert_single_output(&alpha, &outputs, &[b, b, b]);
}

#[test]
fn leftmost_xay_to_xby() {
    let mut alpha = PhonruleAlphabet::empty();
    let _ = alpha.intern("a");
    let _ = alpha.intern("x");
    let _ = alpha.intern("y");
    let class_table = FstTable::new();
    let map_table = FstTable::new();

    let rule = rule_with_context("a", "b", vec![ctx_literal("x")], vec![ctx_literal("y")]);
    let constraint =
        build_obligatory_constraint(&rule, &mut alpha, &class_table).expect("constraint");
    let repl =
        build_replacement_transducer(&rule, &mut alpha, &class_table, &map_table).expect("repl");
    let leftmost =
        build_longest_leftmost_filter(&rule, &mut alpha, &class_table, &map_table).expect("leftmost");

    let a = alpha.lookup("a").unwrap();
    let b = alpha.lookup("b").unwrap();
    let x = alpha.lookup("x").unwrap();
    let y = alpha.lookup("y").unwrap();
    let input = linear_input_acceptor(&[x, a, y]);
    let outputs = run_pipeline(&alpha, &constraint, &repl, &leftmost, &input);
    assert_single_output(&alpha, &outputs, &[x, b, y]);
    let _ = a;
}

#[test]
fn leftmost_xayxay_to_xbyxby() {
    let mut alpha = PhonruleAlphabet::empty();
    let _ = alpha.intern("a");
    let _ = alpha.intern("x");
    let _ = alpha.intern("y");
    let class_table = FstTable::new();
    let map_table = FstTable::new();

    let rule = rule_with_context("a", "b", vec![ctx_literal("x")], vec![ctx_literal("y")]);
    let constraint =
        build_obligatory_constraint(&rule, &mut alpha, &class_table).expect("constraint");
    let repl =
        build_replacement_transducer(&rule, &mut alpha, &class_table, &map_table).expect("repl");
    let leftmost =
        build_longest_leftmost_filter(&rule, &mut alpha, &class_table, &map_table).expect("leftmost");

    let a = alpha.lookup("a").unwrap();
    let b = alpha.lookup("b").unwrap();
    let x = alpha.lookup("x").unwrap();
    let y = alpha.lookup("y").unwrap();
    let input = linear_input_acceptor(&[x, a, y, x, a, y]);
    let outputs = run_pipeline(&alpha, &constraint, &repl, &leftmost, &input);
    assert_single_output(&alpha, &outputs, &[x, b, y, x, b, y]);
    let _ = a;
}

#[test]
fn leftmost_no_r_match_passes_unchanged() {
    let mut alpha = PhonruleAlphabet::empty();
    let _ = alpha.intern("a");
    let _ = alpha.intern("x");
    let _ = alpha.intern("y");
    let class_table = FstTable::new();
    let map_table = FstTable::new();

    let rule = rule_with_context("a", "b", vec![ctx_literal("x")], vec![ctx_literal("y")]);
    let constraint =
        build_obligatory_constraint(&rule, &mut alpha, &class_table).expect("constraint");
    let repl =
        build_replacement_transducer(&rule, &mut alpha, &class_table, &map_table).expect("repl");
    let leftmost =
        build_longest_leftmost_filter(&rule, &mut alpha, &class_table, &map_table).expect("leftmost");

    let a = alpha.lookup("a").unwrap();
    let x = alpha.lookup("x").unwrap();
    let input = linear_input_acceptor(&[x, a]);
    let outputs = run_pipeline(&alpha, &constraint, &repl, &leftmost, &input);
    assert_single_output(&alpha, &outputs, &[x, a]);
}

#[test]
fn leftmost_null_rhs_deletes_all() {
    let mut alpha = PhonruleAlphabet::empty();
    let _ = alpha.intern("a");
    let class_table = FstTable::new();
    let map_table = FstTable::new();

    let rule = rule_to_null("a");
    let constraint =
        build_obligatory_constraint(&rule, &mut alpha, &class_table).expect("constraint");
    let repl =
        build_replacement_transducer(&rule, &mut alpha, &class_table, &map_table).expect("repl");
    let leftmost =
        build_longest_leftmost_filter(&rule, &mut alpha, &class_table, &map_table).expect("leftmost");

    let a = alpha.lookup("a").unwrap();
    let input = linear_input_acceptor(&[a, a, a]);
    let outputs = run_pipeline(&alpha, &constraint, &repl, &leftmost, &input);
    assert_single_output(&alpha, &outputs, &[]);
}

#[test]
fn leftmost_class_lhs_with_context() {
    let mut alpha = PhonruleAlphabet::empty();
    let _ = alpha.intern("a");
    let _ = alpha.intern("b");
    let _ = alpha.intern("c");
    let _ = alpha.intern("x");
    let _ = alpha.intern("y");

    let v_class = class_list("V", &["a", "b", "c"]);
    let v_fst = compile_class(&v_class, &mut alpha, &FstTable::new()).expect("compile V");
    let mut class_table = FstTable::new();
    class_table.insert("V".to_string(), v_fst);
    let map_table = FstTable::new();

    let rule = PhonRewriteRule {
        from: PhonPattern::Class(ident("V")),
        to: PhonReplacement::Literal(lit("a")),
        context: Some(PhonContext {
            left: vec![ctx_literal("x")],
            right: vec![ctx_literal("y")],
        }),
        span: sp(),
    };

    let constraint =
        build_obligatory_constraint(&rule, &mut alpha, &class_table).expect("constraint");
    let repl =
        build_replacement_transducer(&rule, &mut alpha, &class_table, &map_table).expect("repl");
    let leftmost =
        build_longest_leftmost_filter(&rule, &mut alpha, &class_table, &map_table).expect("leftmost");

    let a = alpha.lookup("a").unwrap();
    let b = alpha.lookup("b").unwrap();
    let x = alpha.lookup("x").unwrap();
    let y = alpha.lookup("y").unwrap();
    let input = linear_input_acceptor(&[x, b, y]);
    let outputs = run_pipeline(&alpha, &constraint, &repl, &leftmost, &input);
    assert_single_output(&alpha, &outputs, &[x, a, y]);
}

#[test]
fn leftmost_input_without_lhs_passes_through() {
    let mut alpha = PhonruleAlphabet::empty();
    let _ = alpha.intern("a");
    let _ = alpha.intern("b");
    let _ = alpha.intern("z");
    let class_table = FstTable::new();
    let map_table = FstTable::new();

    let rule = rule_no_context("a", "b");
    let constraint =
        build_obligatory_constraint(&rule, &mut alpha, &class_table).expect("constraint");
    let repl =
        build_replacement_transducer(&rule, &mut alpha, &class_table, &map_table).expect("repl");
    let leftmost =
        build_longest_leftmost_filter(&rule, &mut alpha, &class_table, &map_table).expect("leftmost");

    let z = alpha.lookup("z").unwrap();
    let input = linear_input_acceptor(&[z, z, z]);
    let outputs = run_pipeline(&alpha, &constraint, &repl, &leftmost, &input);
    assert_single_output(&alpha, &outputs, &[z, z, z]);
}

#[test]
fn leftmost_empty_input_passes_through() {
    let mut alpha = PhonruleAlphabet::empty();
    let _ = alpha.intern("a");
    let _ = alpha.intern("b");
    let class_table = FstTable::new();
    let map_table = FstTable::new();

    let rule = rule_no_context("a", "b");
    let constraint =
        build_obligatory_constraint(&rule, &mut alpha, &class_table).expect("constraint");
    let repl =
        build_replacement_transducer(&rule, &mut alpha, &class_table, &map_table).expect("repl");
    let leftmost =
        build_longest_leftmost_filter(&rule, &mut alpha, &class_table, &map_table).expect("leftmost");

    let input = linear_input_acceptor(&[]);
    let outputs = run_pipeline(&alpha, &constraint, &repl, &leftmost, &input);
    assert_single_output(&alpha, &outputs, &[]);
}

#[test]
fn leftmost_map_rhs_aaa_to_xxx() {
    let mut alpha = PhonruleAlphabet::empty();
    let _ = alpha.intern("a");
    let _ = alpha.intern("x");
    let class_table = FstTable::new();

    let map_def = PhonMapDef {
        name: ident("to_x"),
        param: ident("c"),
        body: PhonMapBody::Match {
            arms: vec![PhonMapArm {
                from: lit("a"),
                to: PhonMapResult::Literal(lit("x")),
            }],
            else_arm: Some(PhonMapElse::Var(ident("c"))),
        },
    };
    let map_fst = compile_map(&map_def, &mut alpha);
    let mut map_table = FstTable::new();
    map_table.insert("to_x".to_string(), map_fst);

    let rule = rule_to_map("a", "to_x");
    let constraint =
        build_obligatory_constraint(&rule, &mut alpha, &class_table).expect("constraint");
    let repl =
        build_replacement_transducer(&rule, &mut alpha, &class_table, &map_table).expect("repl");
    let leftmost =
        build_longest_leftmost_filter(&rule, &mut alpha, &class_table, &map_table).expect("leftmost");

    let a = alpha.lookup("a").unwrap();
    let x = alpha.lookup("x").unwrap();
    let input = linear_input_acceptor(&[a, a, a]);
    let outputs = run_pipeline(&alpha, &constraint, &repl, &leftmost, &input);
    assert_single_output(&alpha, &outputs, &[x, x, x]);
}

#[test]
fn leftmost_multi_char_lhs_abab_to_xyxy() {
    let mut alpha = PhonruleAlphabet::empty();
    let _ = alpha.intern("a");
    let _ = alpha.intern("b");
    let _ = alpha.intern("x");
    let _ = alpha.intern("y");
    let class_table = FstTable::new();
    let map_table = FstTable::new();

    let rule = rule_no_context("ab", "xy");
    let constraint =
        build_obligatory_constraint(&rule, &mut alpha, &class_table).expect("constraint");
    let repl =
        build_replacement_transducer(&rule, &mut alpha, &class_table, &map_table).expect("repl");
    let leftmost =
        build_longest_leftmost_filter(&rule, &mut alpha, &class_table, &map_table).expect("leftmost");

    let a = alpha.lookup("a").unwrap();
    let b = alpha.lookup("b").unwrap();
    let x = alpha.lookup("x").unwrap();
    let y = alpha.lookup("y").unwrap();
    let input = linear_input_acceptor(&[a, b, a, b]);
    let outputs = run_pipeline(&alpha, &constraint, &repl, &leftmost, &input);
    assert_single_output(&alpha, &outputs, &[x, y, x, y]);
}

#[test]
fn leftmost_single_occurrence_in_context() {
    let mut alpha = PhonruleAlphabet::empty();
    let _ = alpha.intern("a");
    let _ = alpha.intern("b");
    let _ = alpha.intern("c");
    let class_table = FstTable::new();
    let map_table = FstTable::new();

    let rule = rule_no_context("a", "b");
    let constraint =
        build_obligatory_constraint(&rule, &mut alpha, &class_table).expect("constraint");
    let repl =
        build_replacement_transducer(&rule, &mut alpha, &class_table, &map_table).expect("repl");
    let leftmost =
        build_longest_leftmost_filter(&rule, &mut alpha, &class_table, &map_table).expect("leftmost");

    let a = alpha.lookup("a").unwrap();
    let b = alpha.lookup("b").unwrap();
    let c = alpha.lookup("c").unwrap();
    let input = linear_input_acceptor(&[c, a, c]);
    let outputs = run_pipeline(&alpha, &constraint, &repl, &leftmost, &input);
    assert_single_output(&alpha, &outputs, &[c, b, c]);
}

#[test]
fn leftmost_context_selective_rewrite() {
    let mut alpha = PhonruleAlphabet::empty();
    let _ = alpha.intern("a");
    let _ = alpha.intern("x");
    let _ = alpha.intern("y");
    let class_table = FstTable::new();
    let map_table = FstTable::new();

    let rule = rule_with_context("a", "b", vec![ctx_literal("x")], vec![ctx_literal("y")]);
    let constraint =
        build_obligatory_constraint(&rule, &mut alpha, &class_table).expect("constraint");
    let repl =
        build_replacement_transducer(&rule, &mut alpha, &class_table, &map_table).expect("repl");
    let leftmost =
        build_longest_leftmost_filter(&rule, &mut alpha, &class_table, &map_table).expect("leftmost");

    let a = alpha.lookup("a").unwrap();
    let b = alpha.lookup("b").unwrap();
    let x = alpha.lookup("x").unwrap();
    let y = alpha.lookup("y").unwrap();
    let input = linear_input_acceptor(&[x, a, y, a, y]);
    let outputs = run_pipeline(&alpha, &constraint, &repl, &leftmost, &input);
    assert_single_output(&alpha, &outputs, &[x, b, y, a, y]);
}
