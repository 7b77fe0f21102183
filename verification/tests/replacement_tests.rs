use hubullu::ast::{
    CharClassBody, CharClassDef, PhonMapArm, PhonMapBody, PhonMapDef, PhonMapElse, PhonMapResult, PhonPattern,
    PhonReplacement, PhonRewriteRule, Span, Spanned, StringLit,
};
use hubullu::fst::alphabet::{PhonruleAlphabet, BRACKET_CLOSE_OBLIG_LABEL, BRACKET_OPEN_OBLIG_LABEL};
use hubullu::fst::backend::{Label, Path};
use hubullu::fst::machine::{arc_sort_input, arc_sort_output, builder, compose, paths, Fst};
use hubullu::fst::phonrule::brackets::{intro_brackets, strip_brackets};
use hubullu::fst::phonrule::class::compile_class;
use hubullu::fst::phonrule::map::compile_map;
use hubullu::fst::phonrule::replacement::{build_replacement_transducer, ReplacementCompileError};
use hubullu::fst::table::FstTable;
use hubullu::span::FileId;

fn sp() -> Span {
    Span { file_id: FileId(0), start: 0, end: 0 }
}

fn ident(s: &str) -> Spanned<String> {
    Spanned::new(s.to_string(), sp())
}

fn lit(s: &str) -> StringLit {
    Spanned::new(s.to_string(), sp())
}

fn class_list(name: &str, members: &[&str]) -> CharClassDef {
    CharClassDef { name: ident(name), body: CharClassBody::List(members.iter().map(|m| lit(m)).collect()) }
}

fn rule_literal_to_literal(from: &str, to: &str) -> PhonRewriteRule {
    PhonRewriteRule {
        from: PhonPattern::Literal(lit(from)),
        to: PhonReplacement::Literal(lit(to)),
        context: None,
        span: sp(),
    }
}

fn rule_literal_to_null(from: &str) -> PhonRewriteRule {
    PhonRewriteRule { from: PhonPattern::Literal(lit(from)), to: PhonReplacement::Null, context: None, span: sp() }
}

fn rule_literal_to_map(from: &str, map_name: &str) -> PhonRewriteRule {
    PhonRewriteRule {
        from: PhonPattern::Literal(lit(from)),
        to: PhonReplacement::MapCall(ident(map_name)),
        context: None,
        span: sp(),
    }
}

fn rule_class_to_literal(class_name: &str, to: &str) -> PhonRewriteRule {
    PhonRewriteRule {
        from: PhonPattern::Class(ident(class_name)),
        to: PhonReplacement::Literal(lit(to)),
        context: None,
        span: sp(),
    }
}

fn fixture_alpha() -> (PhonruleAlphabet, Label, Label, Label, Label, Label) {
    let mut alpha = PhonruleAlphabet::empty();
    let a = alpha.intern("a");
    let b = alpha.intern("b");
    let c = alpha.intern("c");
    let x = alpha.intern("x");
    let y = alpha.intern("y");
    (alpha, a, b, c, x, y)
}

fn linear_input_acceptor(labels: &[Label]) -> Fst {
    let mut b = builder();
    let mut prev = b.add_state();
    b.set_start(prev).expect("set_start");
    for &l in labels {
        let next = b.add_state();
        b.add_arc(prev, l, l, next).expect("add_arc");
        prev = next;
    }
    b.set_final(prev).expect("set_final");
    b.finish().expect("finish")
}

fn compose_input_with_replacement(input: &Fst, replacement: &Fst) -> Fst {
    let input_sorted = arc_sort_output(input);
    let repl_sorted = arc_sort_input(replacement);
    compose(&input_sorted, &repl_sorted)
}

const BOUNDED_PATHS: usize = 4096;

fn bounded_paths(fst: &Fst) -> Vec<Path> {
    paths(fst, BOUNDED_PATHS)
}

fn output_seq_present(paths: &[Path], expected: &[Label]) -> bool {
    paths.iter().any(|p| p.output.as_slice() == expected)
}

#[test]
fn literal_rhs_single_char_lhs_replaces_inside_brackets() {
    let (mut alpha, a, b, _c, _x, _y) = fixture_alpha();
    let class_table = FstTable::new();
    let map_table = FstTable::new();
    let rule = rule_literal_to_literal("a", "b");
    let repl = build_replacement_transducer(&rule, &mut alpha, &class_table, &map_table).expect("build replacement");
    let input = linear_input_acceptor(&[BRACKET_OPEN_OBLIG_LABEL, a, BRACKET_CLOSE_OBLIG_LABEL]);
    let composed = compose_input_with_replacement(&input, &repl);
    let paths = bounded_paths(&composed);
    assert!(output_seq_present(&paths, &[BRACKET_OPEN_OBLIG_LABEL, b, BRACKET_CLOSE_OBLIG_LABEL]));
}

#[test]
fn literal_rhs_unbracketed_input_is_identity() {
    let (mut alpha, a, _b, _c, _x, _y) = fixture_alpha();
    let class_table = FstTable::new();
    let map_table = FstTable::new();
    let rule = rule_literal_to_literal("a", "b");
    let repl = build_replacement_transducer(&rule, &mut alpha, &class_table, &map_table).expect("build replacement");
    let input = linear_input_acceptor(&[a, a]);
    let composed = compose_input_with_replacement(&input, &repl);
    let paths = bounded_paths(&composed);
    assert!(output_seq_present(&paths, &[a, a]));
}

#[test]
fn literal_rhs_multi_char_lhs_replaces_inside_brackets() {
    let (mut alpha, a, b, _c, x, y) = fixture_alpha();
    let class_table = FstTable::new();
    let map_table = FstTable::new();
    let rule = rule_literal_to_literal("ab", "xy");
    let repl = build_replacement_transducer(&rule, &mut alpha, &class_table, &map_table).expect("build replacement");
    let input = linear_input_acceptor(&[BRACKET_OPEN_OBLIG_LABEL, a, b, BRACKET_CLOSE_OBLIG_LABEL]);
    let composed = compose_input_with_replacement(&input, &repl);
    let paths = bounded_paths(&composed);
    assert!(output_seq_present(&paths, &[BRACKET_OPEN_OBLIG_LABEL, x, y, BRACKET_CLOSE_OBLIG_LABEL]));
}

#[test]
fn null_rhs_deletes_inside_brackets() {
    let (mut alpha, a, _b, _c, _x, _y) = fixture_alpha();
    let class_table = FstTable::new();
    let map_table = FstTable::new();
    let rule = rule_literal_to_null("a");
    let repl = build_replacement_transducer(&rule, &mut alpha, &class_table, &map_table).expect("build replacement");
    let input = linear_input_acceptor(&[BRACKET_OPEN_OBLIG_LABEL, a, BRACKET_CLOSE_OBLIG_LABEL]);
    let composed = compose_input_with_replacement(&input, &repl);
    let paths = bounded_paths(&composed);
    assert!(output_seq_present(&paths, &[BRACKET_OPEN_OBLIG_LABEL, BRACKET_CLOSE_OBLIG_LABEL]));
}

#[test]
fn map_rhs_applies_named_map_to_single_char_lhs() {
    let (mut alpha, a, _b, _c, x, _y) = fixture_alpha();
    let class_table = FstTable::new();
    let map_def = PhonMapDef {
        name: ident("to_x"),
        param: ident("c"),
        body: PhonMapBody::Match {
            arms: vec![PhonMapArm { from: lit("a"), to: PhonMapResult::Literal(lit("x")) }],
            else_arm: Some(PhonMapElse::Var(ident("c"))),
        },
    };
    let map_fst = compile_map(&map_def, &mut alpha);
    let mut map_table = FstTable::new();
    map_table.insert("to_x".to_string(), map_fst);
    let rule = rule_literal_to_map("a", "to_x");
    let repl = build_replacement_transducer(&rule, &mut alpha, &class_table, &map_table).expect("build replacement");
    let input = linear_input_acceptor(&[BRACKET_OPEN_OBLIG_LABEL, a, BRACKET_CLOSE_OBLIG_LABEL]);
    let composed = compose_input_with_replacement(&input, &repl);
    let paths = bounded_paths(&composed);
    assert!(output_seq_present(&paths, &[BRACKET_OPEN_OBLIG_LABEL, x, BRACKET_CLOSE_OBLIG_LABEL]));
}

#[test]
fn brackets_around_non_lhs_symbol_yields_no_accepting_path() {
    let (mut alpha, _a, b, _c, _x, _y) = fixture_alpha();
    let class_table = FstTable::new();
    let map_table = FstTable::new();
    let rule = rule_literal_to_literal("a", "b");
    let repl = build_replacement_transducer(&rule, &mut alpha, &class_table, &map_table).expect("build replacement");
    let input = linear_input_acceptor(&[BRACKET_OPEN_OBLIG_LABEL, b, BRACKET_CLOSE_OBLIG_LABEL]);
    let composed = compose_input_with_replacement(&input, &repl);
    let paths = bounded_paths(&composed);
    let stripped_b_only = [b];
    assert!(!output_seq_present(&paths, &stripped_b_only));
    assert!(output_seq_present(&paths, &[BRACKET_OPEN_OBLIG_LABEL, b, BRACKET_CLOSE_OBLIG_LABEL]));
}

#[test]
fn multiple_bracketed_regions_each_replaced() {
    let (mut alpha, a, b, _c, x, _y) = fixture_alpha();
    let class_table = FstTable::new();
    let map_table = FstTable::new();
    let rule = rule_literal_to_literal("a", "b");
    let repl = build_replacement_transducer(&rule, &mut alpha, &class_table, &map_table).expect("build replacement");
    let input = linear_input_acceptor(&[
        BRACKET_OPEN_OBLIG_LABEL,
        a,
        BRACKET_CLOSE_OBLIG_LABEL,
        x,
        BRACKET_OPEN_OBLIG_LABEL,
        a,
        BRACKET_CLOSE_OBLIG_LABEL,
    ]);
    let composed = compose_input_with_replacement(&input, &repl);
    let paths = bounded_paths(&composed);
    let want = [
        BRACKET_OPEN_OBLIG_LABEL,
        b,
        BRACKET_CLOSE_OBLIG_LABEL,
        x,
        BRACKET_OPEN_OBLIG_LABEL,
        b,
        BRACKET_CLOSE_OBLIG_LABEL,
    ];
    assert!(output_seq_present(&paths, &want));
}

#[test]
fn class_lhs_with_literal_rhs_replaces_inside_brackets() {
    let (mut alpha, _a, b, _c, x, _y) = fixture_alpha();
    let v_class = class_list("V", &["a", "b", "c"]);
    let class_fst = compile_class(&v_class, &mut alpha, &FstTable::new()).expect("compile class V");
    let mut class_table = FstTable::new();
    class_table.insert("V".to_string(), class_fst);
    let map_table = FstTable::new();
    let rule = rule_class_to_literal("V", "x");
    let repl = build_replacement_transducer(&rule, &mut alpha, &class_table, &map_table).expect("build replacement");
    let input = linear_input_acceptor(&[BRACKET_OPEN_OBLIG_LABEL, b, BRACKET_CLOSE_OBLIG_LABEL]);
    let composed = compose_input_with_replacement(&input, &repl);
    let paths = bounded_paths(&composed);
    assert!(output_seq_present(&paths, &[BRACKET_OPEN_OBLIG_LABEL, x, BRACKET_CLOSE_OBLIG_LABEL]));
}

#[test]
fn round_trip_intro_replacement_strip_produces_replaced_output() {
    let (mut alpha, a, b, _c, _x, _y) = fixture_alpha();
    let class_table = FstTable::new();
    let map_table = FstTable::new();
    let rule = rule_literal_to_literal("a", "b");
    let intro = intro_brackets(&alpha);
    let repl = build_replacement_transducer(&rule, &mut alpha, &class_table, &map_table).expect("build replacement");
    let strip = strip_brackets(&alpha);
    let intro_repl = compose(&arc_sort_output(&intro), &arc_sort_input(&repl));
    let chain = compose(&arc_sort_output(&intro_repl), &arc_sort_input(&strip));
    let input = linear_input_acceptor(&[a]);
    let applied = compose(&arc_sort_output(&input), &arc_sort_input(&chain));
    let paths = bounded_paths(&applied);
    assert!(output_seq_present(&paths, &[b]));
    assert!(output_seq_present(&paths, &[a]));
}

#[test]
fn unknown_class_and_map_are_reported() {
    let (mut alpha, _a, _b, _c, _x, _y) = fixture_alpha();
    let empty = FstTable::new();
    let err = build_replacement_transducer(&rule_class_to_literal("V", "x"), &mut alpha, &empty, &empty).unwrap_err();
    assert_eq!(err, ReplacementCompileError::UnknownClass { name: "V".to_string() });
    let err = build_replacement_transducer(&rule_literal_to_map("a", "m"), &mut alpha, &empty, &empty).unwrap_err();
    assert_eq!(err, ReplacementCompileError::UnknownMap { name: "m".to_string() });
}
