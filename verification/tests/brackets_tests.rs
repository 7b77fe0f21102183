use std::collections::HashSet;

use hubullu::fst::alphabet::{PhonruleAlphabet, BRACKET_CLOSE_OBLIG_LABEL, BRACKET_OPEN_OBLIG_LABEL};
use hubullu::fst::backend::{Label, Path};
use hubullu::fst::machine::{builder, compose, num_states, paths, Fst};
use hubullu::fst::phonrule::brackets::{identity_outside_brackets, intro_brackets, strip_brackets};

fn fixture_alpha() -> (PhonruleAlphabet, Label, Label, Label) {
    let mut alpha = PhonruleAlphabet::empty();
    let a = alpha.intern("a");
    let b = alpha.intern("b");
    let c = alpha.intern("c");
    (alpha, a, b, c)
}

fn linear_input_acceptor(labels: &[Label]) -> Fst {
    let mut b = builder();
    let mut prev = b.add_state();
    b.set_start(prev).expect("linear: set_start");
    for &l in labels {
        let next = b.add_state();
        b.add_arc(prev, l, l, next).expect("linear: add_arc");
        prev = next;
    }
    b.set_final(prev).expect("linear: set_final");
    b.finish().expect("linear: finish")
}

const BOUNDED_PATHS: usize = 4096;

fn bounded_paths(fst: &Fst) -> Vec<Path> {
    paths(fst, BOUNDED_PATHS)
}

fn output_seq_present(paths: &[Path], expected: &[Label]) -> bool {
    paths.iter().any(|p| p.output.as_slice() == expected)
}

#[test]
fn intro_brackets_preserves_identity_path() {
    let (alpha, a, b, c) = fixture_alpha();
    let intro = intro_brackets(&alpha);
    let input = linear_input_acceptor(&[a, b, c]);
    let composed = compose(&input, &intro);
    let paths = bounded_paths(&composed);
    assert!(output_seq_present(&paths, &[a, b, c]));
}

#[test]
fn intro_brackets_can_insert_open_at_start() {
    let (alpha, a, b, c) = fixture_alpha();
    let intro = intro_brackets(&alpha);
    let input = linear_input_acceptor(&[a, b, c]);
    let composed = compose(&input, &intro);
    let paths = bounded_paths(&composed);
    let want = [BRACKET_OPEN_OBLIG_LABEL, a, b, c];
    assert!(output_seq_present(&paths, &want));
}

#[test]
fn intro_brackets_can_insert_close_at_end() {
    let (alpha, a, b, c) = fixture_alpha();
    let intro = intro_brackets(&alpha);
    let input = linear_input_acceptor(&[a, b, c]);
    let composed = compose(&input, &intro);
    let paths = bounded_paths(&composed);
    let want = [a, b, c, BRACKET_CLOSE_OBLIG_LABEL];
    assert!(output_seq_present(&paths, &want));
}

#[test]
fn intro_brackets_can_wrap_input_in_brackets() {
    let (alpha, a, b, c) = fixture_alpha();
    let intro = intro_brackets(&alpha);
    let input = linear_input_acceptor(&[a, b, c]);
    let composed = compose(&input, &intro);
    let paths = bounded_paths(&composed);
    let want = [BRACKET_OPEN_OBLIG_LABEL, a, b, c, BRACKET_CLOSE_OBLIG_LABEL];
    assert!(output_seq_present(&paths, &want));
}

#[test]
fn intro_brackets_can_insert_pair_inside_input() {
    let (alpha, a, b, c) = fixture_alpha();
    let intro = intro_brackets(&alpha);
    let input = linear_input_acceptor(&[a, b, c]);
    let composed = compose(&input, &intro);
    let paths = bounded_paths(&composed);
    let want = [a, BRACKET_OPEN_OBLIG_LABEL, BRACKET_CLOSE_OBLIG_LABEL, b, c];
    assert!(output_seq_present(&paths, &want));
}

#[test]
fn strip_brackets_drops_open_and_close_markers() {
    let (alpha, a, b, c) = fixture_alpha();
    let strip = strip_brackets(&alpha);
    let input = linear_input_acceptor(&[BRACKET_OPEN_OBLIG_LABEL, a, b, c, BRACKET_CLOSE_OBLIG_LABEL]);
    let composed = compose(&input, &strip);
    let paths = bounded_paths(&composed);
    assert_eq!(paths.len(), 1, "strip on linear input should yield 1 path");
    assert_eq!(paths[0].output.as_slice(), &[a, b, c]);
}

#[test]
fn strip_brackets_is_identity_on_plain_sigma() {
    let (alpha, a, b, c) = fixture_alpha();
    let strip = strip_brackets(&alpha);
    let input = linear_input_acceptor(&[a, b, c]);
    let composed = compose(&input, &strip);
    let paths = bounded_paths(&composed);
    assert_eq!(paths.len(), 1);
    assert_eq!(paths[0].input.as_slice(), &[a, b, c]);
    assert_eq!(paths[0].output.as_slice(), &[a, b, c]);
}

#[test]
fn strip_brackets_handles_only_brackets() {
    let (alpha, _a, _b, _c) = fixture_alpha();
    let strip = strip_brackets(&alpha);
    let input = linear_input_acceptor(&[BRACKET_OPEN_OBLIG_LABEL, BRACKET_CLOSE_OBLIG_LABEL]);
    let composed = compose(&input, &strip);
    let paths = bounded_paths(&composed);
    assert_eq!(paths.len(), 1);
    let empty: &[Label] = &[];
    assert_eq!(paths[0].output.as_slice(), empty);
}

#[test]
fn intro_then_strip_preserves_identity_path() {
    let (alpha, a, b, c) = fixture_alpha();
    let intro = intro_brackets(&alpha);
    let input = linear_input_acceptor(&[a, b, c]);
    let bracketed = compose(&input, &intro);
    let paths = bounded_paths(&bracketed);
    let bracket_set: HashSet<Label> =
        [BRACKET_OPEN_OBLIG_LABEL, BRACKET_CLOSE_OBLIG_LABEL].iter().copied().collect();
    let strip_path_output = |p: &Path| -> Vec<Label> {
        p.output.iter().copied().filter(|l| !bracket_set.contains(l)).collect()
    };
    let recovers_identity = paths.iter().any(|p| strip_path_output(p).as_slice() == &[a, b, c]);
    assert!(recovers_identity);
    for p in &paths {
        let stripped = strip_path_output(p);
        assert_eq!(stripped.as_slice(), &[a, b, c]);
    }
}

#[test]
fn identity_outside_brackets_preserves_brackets() {
    let (alpha, a, b, c) = fixture_alpha();
    let id = identity_outside_brackets(&alpha);
    let seq = [BRACKET_OPEN_OBLIG_LABEL, a, b, c, BRACKET_CLOSE_OBLIG_LABEL];
    let input = linear_input_acceptor(&seq);
    let composed = compose(&input, &id);
    let paths = bounded_paths(&composed);
    assert_eq!(paths.len(), 1);
    assert_eq!(paths[0].input.as_slice(), &seq);
    assert_eq!(paths[0].output.as_slice(), &seq);
}

#[test]
fn identity_outside_brackets_is_identity_on_plain_sigma() {
    let (alpha, a, b, c) = fixture_alpha();
    let id = identity_outside_brackets(&alpha);
    let input = linear_input_acceptor(&[a, b, c]);
    let composed = compose(&input, &id);
    let paths = bounded_paths(&composed);
    assert_eq!(paths.len(), 1);
    assert_eq!(paths[0].input.as_slice(), &[a, b, c]);
    assert_eq!(paths[0].output.as_slice(), &[a, b, c]);
}

#[test]
fn all_three_fsts_are_single_state() {
    let (alpha, _a, _b, _c) = fixture_alpha();
    assert_eq!(num_states(&intro_brackets(&alpha)), 1);
    assert_eq!(num_states(&strip_brackets(&alpha)), 1);
    assert_eq!(num_states(&identity_outside_brackets(&alpha)), 1);
}

#[test]
fn strip_brackets_keeps_stream_markers() {
    let (alpha, a, _b, _c) = fixture_alpha();
    let strip = strip_brackets(&alpha);
    let seq = [alpha.word_start_label(), a, alpha.boundary_label(), alpha.word_end_label()];
    let input = linear_input_acceptor(&seq);
    let paths = bounded_paths(&compose(&input, &strip));
    assert_eq!(paths.len(), 1);
    assert_eq!(paths[0].output.as_slice(), &seq);
}
