use std::collections::HashSet;

use hubullu::ast::{
    PhonMapArm, PhonMapBody, PhonMapDef, PhonMapElse, PhonMapResult,
    CharClassBody, CharClassDef, PhonAtom, PhonContext, PhonContextElem, PhonPattern, PhonReplacement,
    PhonRewriteRule, Quantifier, Span, Spanned, StringLit,
};
use hubullu::fst::alphabet::PhonruleAlphabet;
use hubullu::fst::backend::Label;
use hubullu::fst::machine::{arc_sort_input, arc_sort_output, chain_machine, compose, paths, Fst};
use hubullu::fst::phonrule::apply::apply_phonrule_fst;
use hubullu::fst::phonrule::map::compile_map;
use hubullu::fst::phonrule::directed_replace::{
    build_directed_replacement, literal_self_overlaps, DirectedReplaceError,
};
use hubullu::fst::table::{ClassMembers, FstTable};
use hubullu::span::FileId;

fn sp() -> Span {
    Span { file_id: FileId(0), start: 0, end: 0 }
}

fn id(s: &str) -> Spanned<String> {
    Spanned::new(s.to_string(), sp())
}

fn lit(s: &str) -> StringLit {
    Spanned::new(s.to_string(), sp())
}

/// `a -> b / x _ y`.
fn toy_base_rule() -> PhonRewriteRule {
    PhonRewriteRule {
        from: PhonPattern::Literal(lit("a")),
        to: PhonReplacement::Literal(lit("b")),
        context: Some(PhonContext {
            left: vec![PhonContextElem::Atom(PhonAtom::Literal(lit("x")), Quantifier::Exact(1))],
            right: vec![PhonContextElem::Atom(PhonAtom::Literal(lit("y")), Quantifier::Exact(1))],
        }),
        span: sp(),
    }
}

/// `a -> b / x !V* _ y` with V = {a, e, i}.
fn toy_negclass_rule() -> PhonRewriteRule {
    PhonRewriteRule {
        from: PhonPattern::Literal(lit("a")),
        to: PhonReplacement::Literal(lit("b")),
        context: Some(PhonContext {
            left: vec![
                PhonContextElem::Atom(PhonAtom::Literal(lit("x")), Quantifier::Exact(1)),
                PhonContextElem::Atom(PhonAtom::NegClass(id("V")), Quantifier::Star),
            ],
            right: vec![PhonContextElem::Atom(PhonAtom::Literal(lit("y")), Quantifier::Exact(1))],
        }),
        span: sp(),
    }
}

#[allow(dead_code)]
fn class_list(name: &str, members: &[&str]) -> CharClassDef {
    CharClassDef { name: id(name), body: CharClassBody::List(members.iter().map(|m| lit(m)).collect()) }
}

fn alpha_for(corpus: &[&str]) -> PhonruleAlphabet {
    let mut alpha = PhonruleAlphabet::empty();
    for s in corpus {
        for ch in s.chars() {
            if ch == '\0' {
                continue;
            }
            alpha.intern(&ch.to_string());
        }
    }
    alpha
}

fn apply_fst(fst: &Fst, input: &str, alpha: &mut PhonruleAlphabet) -> String {
    apply_phonrule_fst(fst, input, alpha, 64).expect("apply")
}

fn class_table_v() -> ClassMembers {
    let mut t = ClassMembers::new();
    t.insert("V".to_string(), vec!["a".to_string(), "e".to_string(), "i".to_string()]);
    t
}

fn range_rule(from_elems: Vec<PhonContextElem>, to: PhonReplacement, context: Option<PhonContext>) -> PhonRewriteRule {
    PhonRewriteRule { from: PhonPattern::Range(from_elems), to, context, span: sp() }
}

fn atom_lit(s: &str, q: Quantifier) -> PhonContextElem {
    PhonContextElem::Atom(PhonAtom::Literal(lit(s)), q)
}

fn check_cases(rule: &PhonRewriteRule, class_table: &ClassMembers, cases: &[(&str, &str)], seed_chars: &[&str]) {
    let mut alpha = alpha_for(seed_chars);
    let map_table = FstTable::new();
    let fst = build_directed_replacement(rule, &mut alpha, class_table, &map_table).expect("build rule");
    let mut failures = Vec::new();
    for &(input, expected) in cases {
        let actual = apply_fst(&fst, input, &mut alpha);
        if actual != expected {
            failures.push((input.to_string(), expected.to_string(), actual));
        }
    }
    assert!(failures.is_empty(), "rule disagreed with expected outputs: {:?}", failures);
}

const BASE_CASES: &[(&str, &str)] = &[
    ("", ""),
    ("xy", "xy"),
    ("xay", "xby"),
    ("xby", "xby"),
    ("xaay", "xaay"),
    ("zxayz", "zxbyz"),
    ("xaya", "xbya"),
    ("axy", "axy"),
    ("xayxay", "xbyxby"),
    ("a", "a"),
    ("x", "x"),
    ("y", "y"),
    ("xxayy", "xxbyy"),
    ("yax", "yax"),
    ("zzz", "zzz"),
    ("xayay", "xbyay"),
];

const CORPUS: &[&str] = &[
    "", "xy", "xay", "xby", "xaay", "zxayz", "xaya", "axy", "xayxay", "a", "x", "y", "xxayy", "yax", "zzz", "xayay",
];

#[test]
fn base_rule_byte_identical_to_eval() {
    let rule = toy_base_rule();
    check_cases(&rule, &ClassMembers::new(), BASE_CASES, CORPUS);
}

#[test]
fn negclass_rule_byte_identical_to_eval() {
    let rule = toy_negclass_rule();
    let mut cases: Vec<(&str, &str)> =
        BASE_CASES.iter().map(|&(i, o)| if i == "xayay" { (i, "xbyby") } else { (i, o) }).collect();
    cases.extend_from_slice(&[
        ("xcay", "xcby"),
        ("xccay", "xccby"),
        ("xeay", "xeay"),
        ("xcby", "xcby"),
        ("xcaay", "xcaay"),
        ("zxcayz", "zxcbyz"),
    ]);
    let mut seed: Vec<&str> = CORPUS.to_vec();
    seed.extend_from_slice(&["xcay", "xccay", "xeay", "xcby", "xcaay", "zxcayz"]);
    check_cases(&rule, &class_table_v(), &cases, &seed);
}

#[test]
fn xay_yields_only_xby_not_passthrough() {
    let rule = toy_base_rule();
    let mut alpha = alpha_for(&["xay", "xby"]);
    let map_table = FstTable::new();
    let fst = build_directed_replacement(&rule, &mut alpha, &ClassMembers::new(), &map_table).expect("build");
    let labels: Vec<Label> = "xay".chars().map(|c| alpha.intern(&c.to_string())).collect();
    let acceptor = chain_machine(&labels, &labels);
    let applied = compose(&arc_sort_output(&acceptor), &arc_sort_input(&fst));
    let mut outputs: HashSet<String> = HashSet::new();
    for p in paths(&applied, 4096) {
        let s: String = p.output.iter().filter_map(|&l| alpha.label_to_str(l)).collect();
        outputs.insert(s);
    }
    let expected: HashSet<String> = ["xby".to_string()].into_iter().collect();
    assert_eq!(outputs, expected, "xay must produce ONLY xby (no passthrough); got {:?}", outputs);
}

#[test]
fn a_plus_to_x_longest() {
    let rule = range_rule(vec![atom_lit("a", Quantifier::Plus)], PhonReplacement::Literal(lit("x")), None);
    let cases = &[
        ("", ""),
        ("a", "x"),
        ("aa", "x"),
        ("aaa", "x"),
        ("aaaa", "x"),
        ("b", "b"),
        ("ab", "xb"),
        ("ba", "bx"),
        ("aba", "xbx"),
        ("baab", "bxb"),
        ("aabaaa", "xbx"),
        ("abba", "xbbx"),
        ("aaab", "xb"),
    ];
    check_cases(&rule, &ClassMembers::new(), cases, &["a", "b", "x"]);
    let mut alpha = alpha_for(&["a", "b", "x"]);
    let map_table = FstTable::new();
    let fst = build_directed_replacement(&rule, &mut alpha, &ClassMembers::new(), &map_table).unwrap();
    assert_eq!(apply_fst(&fst, "aaa", &mut alpha), "x");
}

#[test]
fn a_plus_to_x_with_left_context() {
    let rule = range_rule(
        vec![atom_lit("a", Quantifier::Plus)],
        PhonReplacement::Literal(lit("x")),
        Some(PhonContext { left: vec![atom_lit("b", Quantifier::Exact(1))], right: vec![] }),
    );
    let cases = &[
        ("", ""),
        ("a", "a"),
        ("aa", "aa"),
        ("baa", "bx"),
        ("baaa", "bx"),
        ("aab", "aab"),
        ("baab", "bxb"),
        ("bbaa", "bbx"),
        ("ab", "ab"),
        ("ba", "bx"),
        ("baaab", "bxb"),
        ("aaa", "aaa"),
        ("bab", "bxb"),
    ];
    check_cases(&rule, &ClassMembers::new(), cases, &["a", "b", "x"]);
}

#[test]
fn unequal_alternation_unsupported() {
    let rule = range_rule(
        vec![PhonContextElem::Atom(
            PhonAtom::Alt(vec![atom_lit("ab", Quantifier::Exact(1)), atom_lit("abc", Quantifier::Exact(1))]),
            Quantifier::Exact(1),
        )],
        PhonReplacement::Literal(lit("x")),
        None,
    );
    let map_table = FstTable::new();
    let mut alpha = alpha_for(&["a", "b", "c", "x", "z"]);
    let err = build_directed_replacement(&rule, &mut alpha, &ClassMembers::new(), &map_table).unwrap_err();
    assert!(matches!(err, DirectedReplaceError::UnsupportedShape(_)), "got {:?}", err);
}

#[test]
fn aa_overlap_unsupported() {
    let rule = range_rule(
        vec![atom_lit("a", Quantifier::Exact(1)), atom_lit("a", Quantifier::Exact(1))],
        PhonReplacement::Literal(lit("x")),
        None,
    );
    let map_table = FstTable::new();
    let mut alpha = alpha_for(&["a", "b", "x"]);
    let err = build_directed_replacement(&rule, &mut alpha, &ClassMembers::new(), &map_table).unwrap_err();
    assert!(matches!(err, DirectedReplaceError::UnsupportedShape(_)), "got {:?}", err);
}

#[test]
fn self_overlap_predicate() {
    assert!(!literal_self_overlaps(""));
    assert!(!literal_self_overlaps("a"));
    assert!(!literal_self_overlaps("ab"));
    assert!(!literal_self_overlaps("abc"));
    assert!(!literal_self_overlaps("xy"));
    assert!(literal_self_overlaps("aa"));
    assert!(literal_self_overlaps("aaa"));
    assert!(literal_self_overlaps("aba"));
    assert!(literal_self_overlaps("abab"));
    assert!(literal_self_overlaps("abcab"));
}

#[test]
fn nonoverlapping_multichar_literal_supported_byte_identical() {
    let rule = PhonRewriteRule {
        from: PhonPattern::Literal(lit("ab")),
        to: PhonReplacement::Literal(lit("xy")),
        context: None,
        span: sp(),
    };
    let cases = &[
        ("", ""),
        ("a", "a"),
        ("b", "b"),
        ("ab", "xy"),
        ("ba", "ba"),
        ("abab", "xyxy"),
        ("aab", "axy"),
        ("abb", "xyb"),
        ("ababab", "xyxyxy"),
        ("aabb", "axyb"),
        ("zzz", "zzz"),
    ];
    check_cases(&rule, &ClassMembers::new(), cases, &["a", "b", "x", "y", "z"]);
}

#[test]
fn self_overlapping_multichar_literal_unsupported() {
    let map_table = FstTable::new();
    for word in ["aa", "aba"] {
        let rule = PhonRewriteRule {
            from: PhonPattern::Literal(lit(word)),
            to: PhonReplacement::Literal(lit("x")),
            context: None,
            span: sp(),
        };
        let mut alpha = alpha_for(&["a", "b", "x"]);
        let err = build_directed_replacement(&rule, &mut alpha, &ClassMembers::new(), &map_table).unwrap_err();
        assert!(
            matches!(err, DirectedReplaceError::UnsupportedShape(_)),
            "self-overlapping literal {:?} must be UnsupportedShape, got {:?}",
            word,
            err
        );
    }
}

#[test]
fn bounded_range_unsupported() {
    let rule = range_rule(vec![atom_lit("a", Quantifier::Range(2, 3))], PhonReplacement::Literal(lit("x")), None);
    let map_table = FstTable::new();
    let mut alpha = alpha_for(&["a", "b", "x"]);
    let err = build_directed_replacement(&rule, &mut alpha, &ClassMembers::new(), &map_table).unwrap_err();
    assert!(matches!(err, DirectedReplaceError::UnsupportedShape(_)), "got {:?}", err);
}

#[test]
fn a_plus_deletion_longest() {
    let rule = range_rule(vec![atom_lit("a", Quantifier::Plus)], PhonReplacement::Null, None);
    let cases = &[
        ("", ""),
        ("a", ""),
        ("aa", ""),
        ("aaa", ""),
        ("bab", "bb"),
        ("baab", "bb"),
        ("aba", "b"),
        ("abba", "bb"),
    ];
    check_cases(&rule, &ClassMembers::new(), cases, &["a", "b"]);
}

#[test]
fn class_plus_longest() {
    let rule = range_rule(
        vec![PhonContextElem::Atom(PhonAtom::Class(id("V")), Quantifier::Plus)],
        PhonReplacement::Literal(lit("x")),
        None,
    );
    let cases = &[
        ("", ""),
        ("a", "x"),
        ("ae", "x"),
        ("aei", "x"),
        ("b", "b"),
        ("ab", "xb"),
        ("bae", "bx"),
        ("baeib", "bxb"),
        ("aeb", "xb"),
        ("bbaei", "bbx"),
    ];
    check_cases(&rule, &class_table_v(), cases, &["a", "e", "i", "b", "x"]);
}

#[test]
fn compile_is_subsecond_both_variants() {
    let map_table = FstTable::new();
    let t0 = std::time::Instant::now();
    let mut alpha_b = alpha_for(CORPUS);
    let _ = build_directed_replacement(&toy_base_rule(), &mut alpha_b, &ClassMembers::new(), &map_table).expect("base");
    let base_elapsed = t0.elapsed();
    let t1 = std::time::Instant::now();
    let mut alpha_n = alpha_for(CORPUS);
    for c in ["c", "d", "f", "g", "e", "i"] {
        alpha_n.intern(c);
    }
    let _ = build_directed_replacement(&toy_negclass_rule(), &mut alpha_n, &class_table_v(), &map_table).expect("negclass");
    let neg_elapsed = t1.elapsed();
    assert!(base_elapsed.as_millis() < 1000, "base compile not sub-second: {:?}", base_elapsed);
    assert!(neg_elapsed.as_millis() < 1000, "negclass compile not sub-second: {:?}", neg_elapsed);
}

#[test]
fn notinner_compile_subsecond() {
    let rule = range_rule(
        vec![atom_lit("a", Quantifier::Plus)],
        PhonReplacement::Literal(lit("x")),
        Some(PhonContext { left: vec![atom_lit("b", Quantifier::Exact(1))], right: vec![] }),
    );
    let map_table = FstTable::new();
    let mut alpha = alpha_for(&["a", "b", "x"]);
    let t0 = std::time::Instant::now();
    let _ = build_directed_replacement(&rule, &mut alpha, &ClassMembers::new(), &map_table).unwrap();
    let elapsed = t0.elapsed();
    assert!(elapsed.as_millis() < 1000, "NotInner compile not sub-second: {:?}", elapsed);
}

struct Lcg {
    state: u64,
}

impl Lcg {
    fn new(seed: &str) -> Self {
        let mut h: u64 = 0xcbf29ce484222325;
        for b in seed.bytes() {
            h ^= b as u64;
            h = h.wrapping_mul(0x100000001b3);
        }
        Self { state: h.max(1) }
    }

    fn next_u64(&mut self) -> u64 {
        self.state = self.state.wrapping_mul(6364136223846793005).wrapping_add(1442695040888963407);
        self.state
    }
}

fn fuzz_inputs(seed: &str, chars: &[char], count: usize, max_len: usize) -> Vec<String> {
    let mut rng = Lcg::new(seed);
    let mut out = Vec::with_capacity(count);
    for _ in 0..count {
        let len = (rng.next_u64() as usize) % (max_len + 1);
        let mut s = String::with_capacity(len);
        for _ in 0..len {
            s.push(chars[(rng.next_u64() as usize) % chars.len()]);
        }
        out.push(s);
    }
    out
}

/// Rewrite, to a fixed point, every `a` that `licensed` accepts into `b`.
fn rewrite_a_to_b_until_stable(input: &str, licensed: impl Fn(&[char], usize) -> bool) -> String {
    let mut s: Vec<char> = input.chars().collect();
    loop {
        let pos = (0..s.len()).find(|&i| s[i] == 'a' && licensed(&s, i));
        match pos {
            Some(i) => s[i] = 'b',
            None => return s.into_iter().collect(),
        }
    }
}

/// `a -> b / x _ y`, to a fixed point.
fn expected_base(input: &str) -> String {
    rewrite_a_to_b_until_stable(input, |s, i| i > 0 && s[i - 1] == 'x' && i + 1 < s.len() && s[i + 1] == 'y')
}

/// `a -> b / x !V* _ y` with V = {a, e, i}, to a fixed point.
fn expected_negclass(input: &str) -> String {
    rewrite_a_to_b_until_stable(input, |s, i| {
        if !(i + 1 < s.len() && s[i + 1] == 'y') {
            return false;
        }
        let mut j = i;
        while j > 0 {
            j -= 1;
            if s[j] == 'x' {
                return true;
            }
            if ['a', 'e', 'i'].contains(&s[j]) {
                return false;
            }
        }
        false
    })
}

/// `a -> b / x .* _`, to a fixed point.
fn expected_multi_license(input: &str) -> String {
    rewrite_a_to_b_until_stable(input, |s, i| s[..i].contains(&'x'))
}

/// A maximal run of `a` becomes one `x`.
fn expected_a_run_to_x(input: &str) -> String {
    let mut out = String::new();
    let mut in_run = false;
    for c in input.chars() {
        if c == 'a' {
            if !in_run {
                out.push('x');
            }
            in_run = true;
        } else {
            out.push(c);
            in_run = false;
        }
    }
    out
}

fn check_fuzz(
    rule: &PhonRewriteRule,
    class_table: &ClassMembers,
    seed: &str,
    chars: &[char],
    max_len: usize,
    expected: fn(&str) -> String,
) {
    let inputs = fuzz_inputs(seed, chars, 600, max_len);
    let seed_chars: Vec<String> = chars.iter().map(|c| c.to_string()).collect();
    let seed_refs: Vec<&str> = seed_chars.iter().map(|s| s.as_str()).collect();
    let mut alpha = alpha_for(&seed_refs);
    let map_table = FstTable::new();
    let fst = build_directed_replacement(rule, &mut alpha, class_table, &map_table).expect("build");
    let mut failures = Vec::new();
    for input in &inputs {
        let want = expected(input);
        let actual = apply_fst(&fst, input, &mut alpha);
        if want != actual {
            failures.push((input.clone(), want, actual));
        }
    }
    assert!(
        failures.is_empty(),
        "fuzz: {} disagreements, first few: {:?}",
        failures.len(),
        &failures[..failures.len().min(10)]
    );
}

#[test]
fn base_rule_fuzz_byte_identical() {
    check_fuzz(&toy_base_rule(), &ClassMembers::new(), "dr-base", &['x', 'y', 'a', 'b', 'z'], 8, expected_base);
}

#[test]
fn negclass_rule_fuzz_byte_identical() {
    check_fuzz(
        &toy_negclass_rule(),
        &class_table_v(),
        "dr-negclass",
        &['x', 'y', 'a', 'b', 'c', 'd', 'e', 'i'],
        8,
        expected_negclass,
    );
}

fn multi_license_rule() -> PhonRewriteRule {
    PhonRewriteRule {
        from: PhonPattern::Literal(lit("a")),
        to: PhonReplacement::Literal(lit("b")),
        context: Some(PhonContext {
            left: vec![
                PhonContextElem::Atom(PhonAtom::Literal(lit("x")), Quantifier::Exact(1)),
                PhonContextElem::Atom(PhonAtom::Wildcard, Quantifier::Star),
            ],
            right: vec![],
        }),
        span: sp(),
    }
}

fn apply_fst_one_pass(fst: &Fst, input: &str, alpha: &mut PhonruleAlphabet) -> String {
    let labels: Vec<Label> = input.chars().map(|c| alpha.intern(&c.to_string())).collect();
    let acceptor = chain_machine(&labels, &labels);
    let applied = compose(&arc_sort_output(&acceptor), &arc_sort_input(fst));
    let best = paths(&applied, 4096).into_iter().map(|p| p.output).min().expect("an accepting path");
    best.iter().filter_map(|&l| alpha.label_to_str(l)).collect()
}

#[test]
fn multi_target_left_license_byte_identical() {
    let rule = multi_license_rule();
    let corpus: Vec<&str> =
        vec!["", "x", "a", "xa", "xaa", "xaaa", "xaba", "xyaa", "axa", "xaxa", "zxaa", "xzaza", "aax"];
    let cases: Vec<(String, String)> = corpus.iter().map(|s| (s.to_string(), expected_multi_license(s))).collect();
    let case_refs: Vec<(&str, &str)> = cases.iter().map(|(a, b)| (a.as_str(), b.as_str())).collect();
    check_cases(&rule, &ClassMembers::new(), &case_refs, &corpus);
    let mut a2 = alpha_for(&["xaa", "xbb"]);
    let f2 = build_directed_replacement(&rule, &mut a2, &ClassMembers::new(), &FstTable::new()).unwrap();
    assert_eq!(apply_fst_one_pass(&f2, "xaa", &mut a2), "xbb");
}

#[test]
fn multi_target_left_license_fuzz() {
    check_fuzz(&multi_license_rule(), &ClassMembers::new(), "dr-multi", &['x', 'a', 'b', 'z'], 8, expected_multi_license);
}

#[test]
fn a_plus_fuzz_byte_identical() {
    let rule = range_rule(vec![atom_lit("a", Quantifier::Plus)], PhonReplacement::Literal(lit("x")), None);
    check_fuzz(&rule, &ClassMembers::new(), "dr-aplus", &['a', 'b', 'x'], 9, expected_a_run_to_x);
}

#[test]
fn atleast_run_fuzz_byte_identical() {
    let rule = range_rule(vec![atom_lit("a", Quantifier::AtLeast(1))], PhonReplacement::Literal(lit("x")), None);
    check_fuzz(&rule, &ClassMembers::new(), "dr-atleast", &['a', 'b', 'x', 'z'], 9, expected_a_run_to_x);
}

const TR_VOWELS: &[&str] = &["a", "e", "ı", "i", "o", "ö", "u", "ü"];
const TR_CONS: &[&str] = &["k", "l", "r", "t", "n"];

/// `low -> to_back_low / back !V* + !V* _`.
fn turkish_harmony_rule() -> PhonRewriteRule {
    PhonRewriteRule {
        from: PhonPattern::Class(id("low")),
        to: PhonReplacement::MapCall(id("to_back_low")),
        context: Some(PhonContext {
            left: vec![
                PhonContextElem::Atom(PhonAtom::Class(id("back")), Quantifier::Exact(1)),
                PhonContextElem::Atom(PhonAtom::NegClass(id("V")), Quantifier::Star),
                PhonContextElem::Boundary,
                PhonContextElem::Atom(PhonAtom::NegClass(id("V")), Quantifier::Star),
            ],
            right: vec![],
        }),
        span: sp(),
    }
}

fn turkish_map() -> PhonMapDef {
    PhonMapDef {
        name: id("to_back_low"),
        param: id("c"),
        body: PhonMapBody::Match {
            arms: vec![
                PhonMapArm { from: lit("e"), to: PhonMapResult::Literal(lit("a")) },
                PhonMapArm { from: lit("ö"), to: PhonMapResult::Literal(lit("a")) },
            ],
            else_arm: Some(PhonMapElse::Var(id("c"))),
        },
    }
}

fn turkish_class_table() -> ClassMembers {
    let owned = |v: &[&str]| v.iter().map(|s| s.to_string()).collect::<Vec<String>>();
    let mut t = ClassMembers::new();
    t.insert("front".to_string(), owned(&["e", "i", "ö", "ü"]));
    t.insert("back".to_string(), owned(&["a", "ı", "o", "u"]));
    t.insert("V".to_string(), owned(&["e", "i", "ö", "ü", "a", "ı", "o", "u"]));
    t.insert("low".to_string(), owned(&["e", "a", "ö", "o"]));
    t
}

fn turkish_alpha() -> PhonruleAlphabet {
    let mut alpha = PhonruleAlphabet::empty();
    for v in TR_VOWELS {
        alpha.intern(v);
    }
    for c in TR_CONS {
        alpha.intern(c);
    }
    alpha
}

fn build_turkish_fst(alpha: &mut PhonruleAlphabet) -> Fst {
    let map_fst = compile_map(&turkish_map(), alpha);
    let mut map_table = FstTable::new();
    map_table.insert("to_back_low".to_string(), map_fst);
    build_directed_replacement(&turkish_harmony_rule(), alpha, &turkish_class_table(), &map_table)
        .expect("build turkish harmony")
}

#[test]
fn turkish_harmony_compiles_subsecond() {
    let mut alpha = turkish_alpha();
    let t0 = std::time::Instant::now();
    let _fst = build_turkish_fst(&mut alpha);
    let elapsed = t0.elapsed();
    assert!(elapsed.as_millis() < 1000, "turkish harmony compile not sub-second: {:?}", elapsed);
}

#[test]
fn turkish_harmony_byte_identical_curated() {
    let mut alpha = turkish_alpha();
    let fst = build_turkish_fst(&mut alpha);
    let b = "\0";
    let cases: Vec<(String, String)> = vec![
        ("".into(), "".into()),
        ("a".into(), "a".into()),
        (format!("yol{}ler", b).replace('y', "k"), format!("kol{}lar", b)),
        (format!("o{}e", b), format!("o{}a", b)),
        (format!("a{}e", b), format!("a{}a", b)),
        (format!("e{}e", b), format!("e{}e", b)),
        (format!("a{}ö", b), format!("a{}a", b)),
        (format!("a{}i", b), format!("a{}i", b)),
        (format!("o{}len{}e", b, b), format!("o{}lan{}a", b, b)),
        (format!("ak{}le", b), format!("ak{}la", b)),
        (format!("a{}klle", b), format!("a{}klla", b)),
        (format!("o{}e{}e", b, b), format!("o{}a{}a", b, b)),
        (format!("e{}a{}e", b, b), format!("e{}a{}a", b, b)),
    ];
    let mut failures = Vec::new();
    for (input, expected) in &cases {
        let actual = apply_fst(&fst, input, &mut alpha);
        if &actual != expected {
            failures.push((input.clone(), expected.clone(), actual));
        }
    }
    assert!(failures.is_empty(), "turkish curated disagreed: {:?}", failures);
}

#[test]
fn compile_map_arm_and_identity_pairs() {
    let mut alpha = PhonruleAlphabet::empty();
    alpha.intern("e");
    alpha.intern("a");
    alpha.intern("k");
    let map = PhonMapDef {
        name: id("m"),
        param: id("c"),
        body: PhonMapBody::Match {
            arms: vec![PhonMapArm { from: lit("e"), to: PhonMapResult::Literal(lit("a")) }],
            else_arm: None,
        },
    };
    let f = compile_map(&map, &mut alpha);
    let got: HashSet<(Vec<Label>, Vec<Label>)> = paths(&f, 64).into_iter().map(|p| (p.input, p.output)).collect();
    let want: HashSet<(Vec<Label>, Vec<Label>)> =
        vec![(vec![16], vec![17]), (vec![17], vec![17]), (vec![18], vec![18])].into_iter().collect();
    assert_eq!(got, want);
}

#[test]
fn single_alternation_atom_unsupported() {
    let alt = PhonAtom::Alt(vec![atom_lit("ab", Quantifier::Exact(1)), atom_lit("abc", Quantifier::Exact(1))]);
    let rule = range_rule(vec![PhonContextElem::Atom(alt, Quantifier::Exact(1))], PhonReplacement::Literal(lit("x")), None);
    let map_table = FstTable::new();
    let mut alpha = alpha_for(&["a", "b", "c", "x"]);
    let err = build_directed_replacement(&rule, &mut alpha, &ClassMembers::new(), &map_table).unwrap_err();
    assert!(matches!(err, DirectedReplaceError::UnsupportedShape(_)), "got {:?}", err);
}
