use hubullu::ast::Span;
use hubullu::error::{Diagnostic, Diagnostics, LabelPosition, Severity};
use hubullu::span::FileId;

fn pos(path: &str, line: usize, col: usize, end_col: usize, text: &str) -> LabelPosition {
    LabelPosition { path: path.to_string(), line, col, end_col, line_text: text.to_string() }
}

fn span(start: usize, end: usize) -> Span {
    Span { file_id: FileId(0), start, end }
}

#[test]
fn render_shows_location_line_and_underline() {
    let d = Diagnostic::error("unknown tag axis").with_label(span(10, 14), "not declared");
    let out = d.render(&vec![pos("main.hu", 12, 5, 9, "tag tens=past")]);
    let expected = "error: unknown tag axis\n  --> main.hu:12:5\n   |\n12 | tag tens=past\n   |     ^^^^ not declared\n";
    assert_eq!(out, expected);
}

#[test]
fn render_underlines_at_least_one_column() {
    let mut d = Diagnostic::error("bad");
    d.severity = Severity::Warning;
    let d = d.with_label(span(0, 0), "here");
    let out = d.render(&vec![pos("a.hu", 3, 1, 1, "x")]);
    assert_eq!(out, "warning: bad\n  --> a.hu:3:1\n  |\n3 | x\n  | ^ here\n");
}

#[test]
fn render_all_separates_diagnostics_with_a_newline() {
    let mut ds = Diagnostics::new();
    ds.add(Diagnostic::error("first"));
    ds.add(Diagnostic::error("second").with_label(span(0, 1), "x"));
    let out = ds.render_all(&vec![vec![], vec![pos("b.hu", 1, 2, 3, "ab")]]);
    assert_eq!(out, "error: first\n\nerror: second\n  --> b.hu:1:2\n  |\n1 | ab\n  |  ^ x\n");
    assert!(ds.has_errors());
}
