//! Diagnostics: errors and warnings with source labels.

use vstd::prelude::*;

use crate::ast::Span;
use crate::text::{decimal, joined, push_decimal, str_chars, str_to_owned, string_push, string_push_str};

verus! {

/// Severity level of a diagnostic.
#[derive(Debug, Clone, Copy, PartialEq, Eq, Structural)]
pub enum Severity {
    Error,
    Warning,
}

/// A message attached to a span of the source.
#[derive(Debug, Clone)]
pub struct Label {
    pub span: Span,
    pub message: String,
}

/// One error or warning with its source labels.
#[derive(Debug, Clone)]
pub struct Diagnostic {
    pub severity: Severity,
    pub message: String,
    pub labels: Vec<Label>,
}

impl Diagnostic {
    /// An error diagnostic with no labels.
    pub fn error(message: &str) -> (d: Self)
        ensures
            d.severity == Severity::Error,
            d.message@ == message@,
            d.labels@.len() == 0,
    {
        Diagnostic { severity: Severity::Error, message: str_to_owned(message), labels: Vec::new() }
    }

    /// The same diagnostic with one more label at the end.
    pub fn with_label(self, span: Span, message: &str) -> (d: Self)
        ensures
            d.severity == self.severity,
            d.message == self.message,
            d.labels@.len() == self.labels@.len() + 1,
            forall|i: int| 0 <= i < self.labels@.len() ==> #[trigger] d.labels@[i] == self.labels@[i],
            d.labels@.last().span == span,
            d.labels@.last().message@ == message@,
    {
        let mut d = self;
        d.labels.push(Label { span, message: str_to_owned(message) });
        d
    }
}

/// Where a label points, resolved against the source: the file's path as
/// shown, the 1-based line and column of the label's start, the column of
/// its end on the start line, and the text of that line.
#[derive(Debug, Clone)]
pub struct LabelPosition {
    pub path: String,
    pub line: usize,
    pub col: usize,
    pub end_col: usize,
    pub line_text: String,
}

/// `n` spaces.
pub open spec fn spaces(n: nat) -> Seq<char> {
    Seq::new(n, |i: int| ' ')
}

/// `n` carets.
pub open spec fn carets(n: nat) -> Seq<char> {
    Seq::new(n, |i: int| '^')
}

/// The word a severity is shown as.
pub open spec fn severity_word(s: Severity) -> Seq<char> {
    match s {
        Severity::Error => "error"@,
        Severity::Warning => "warning"@,
    }
}

/// How many carets underline a label: up to its end column, at least one.
pub open spec fn underline_len(p: LabelPosition) -> nat {
    if p.end_col > p.col { (p.end_col - p.col) as nat } else { 1 }
}

/// The lines shown for one label: where it is, the source line, and the
/// underline with the label's message.
pub open spec fn label_block(l: Label, p: LabelPosition) -> Seq<char> {
    let num = decimal(p.line as nat);
    let pad = spaces(num.len());
    "  --> "@ + p.path@ + ":"@ + num + ":"@ + decimal(p.col as nat) + "\n"@
        + pad + " |\n"@
        + num + " | "@ + p.line_text@ + "\n"@
        + pad + " | "@ + spaces((p.col - 1) as nat) + carets(underline_len(p)) + " "@ + l.message@ + "\n"@
}

/// The blocks of the labels, in order.
pub open spec fn label_blocks(labels: Seq<Label>, pos: Seq<LabelPosition>) -> Seq<char>
    decreases labels.len(),
{
    if labels.len() == 0 {
        Seq::<char>::empty()
    } else {
        label_blocks(labels.drop_last(), pos.drop_last()) + label_block(labels.last(), pos[labels.len() - 1])
    }
}

/// A diagnostic as shown: its severity and message, then each label.
pub open spec fn rendered(d: Diagnostic, pos: Seq<LabelPosition>) -> Seq<char> {
    severity_word(d.severity) + ": "@ + d.message@ + "\n"@ + label_blocks(d.labels@, pos)
}

/// Every label position has a column.
pub open spec fn positions_ok(d: Diagnostic, pos: Seq<LabelPosition>) -> bool {
    &&& pos.len() == d.labels@.len()
    &&& forall|i: int| 0 <= i < pos.len() ==> (#[trigger] pos[i]).col >= 1
}

fn push_spaces(out: &mut String, n: usize)
    ensures
        final(out)@ == old(out)@ + spaces(n as nat),
{
    let mut k: usize = 0;
    while k < n
        invariant
            k <= n,
            out@ == old(out)@ + spaces(k as nat),
        decreases n - k,
    {
        string_push(out, ' ');
        proof {
            assert(spaces((k + 1) as nat) =~= spaces(k as nat).push(' '));
        }
        k = k + 1;
    }
}

fn push_carets(out: &mut String, n: usize)
    ensures
        final(out)@ == old(out)@ + carets(n as nat),
{
    let mut k: usize = 0;
    while k < n
        invariant
            k <= n,
            out@ == old(out)@ + carets(k as nat),
        decreases n - k,
    {
        string_push(out, '^');
        proof {
            assert(carets((k + 1) as nat) =~= carets(k as nat).push('^'));
        }
        k = k + 1;
    }
}

/// The lines shown for one label.
fn label_text(l: &Label, p: &LabelPosition) -> (b: String)
    requires
        p.col >= 1,
    ensures
        b@ == label_block(*l, *p),
{
    let mut num = String::new();
    push_decimal(&mut num, p.line as u64);
    proof {
        assert(num@ =~= decimal(p.line as nat));
    }
    let digits = str_chars(num.as_str()).len();
    let mut b = str_to_owned("  --> ");
    string_push_str(&mut b, p.path.as_str());
    string_push_str(&mut b, ":");
    string_push_str(&mut b, num.as_str());
    string_push_str(&mut b, ":");
    push_decimal(&mut b, p.col as u64);
    string_push_str(&mut b, "\n");
    push_spaces(&mut b, digits);
    string_push_str(&mut b, " |\n");
    string_push_str(&mut b, num.as_str());
    string_push_str(&mut b, " | ");
    string_push_str(&mut b, p.line_text.as_str());
    string_push_str(&mut b, "\n");
    push_spaces(&mut b, digits);
    string_push_str(&mut b, " | ");
    push_spaces(&mut b, p.col - 1);
    let ulen = if p.end_col > p.col { p.end_col - p.col } else { 1 };
    push_carets(&mut b, ulen);
    string_push_str(&mut b, " ");
    string_push_str(&mut b, l.message.as_str());
    string_push_str(&mut b, "\n");
    b
}

impl Diagnostic {
    /// Show this diagnostic with source snippets, one label position per
    /// label, in order.
    pub fn render(&self, positions: &Vec<LabelPosition>) -> (s: String)
        requires
            positions_ok(*self, positions@),
        ensures
            s@ == rendered(*self, positions@),
    {
        let mut out = String::new();
        match self.severity {
            Severity::Error => string_push_str(&mut out, "error"),
            Severity::Warning => string_push_str(&mut out, "warning"),
        }
        string_push_str(&mut out, ": ");
        string_push_str(&mut out, self.message.as_str());
        string_push_str(&mut out, "\n");
        let ghost head = out@;
        let mut i: usize = 0;
        while i < self.labels.len()
            invariant
                i <= self.labels@.len(),
                positions_ok(*self, positions@),
                head == severity_word(self.severity) + ": "@ + self.message@ + "\n"@,
                out@ == head + label_blocks(self.labels@.take(i as int), positions@.take(i as int)),
            decreases self.labels@.len() - i,
        {
            let l = &self.labels[i];
            let p = &positions[i];
            let ghost before = out@;
            let b = label_text(l, p);
            string_push_str(&mut out, b.as_str());
            proof {
                let lt = self.labels@.take(i + 1);
                let pt = positions@.take(i + 1);
                assert(lt.drop_last() =~= self.labels@.take(i as int));
                assert(pt.drop_last() =~= positions@.take(i as int));
                assert(lt.last() == *l);
                assert(pt[lt.len() - 1] == *p);
                assert(label_blocks(lt, pt) == label_blocks(self.labels@.take(i as int), positions@.take(i as int)) + label_block(*l, *p));
                assert(out@ =~= head + label_blocks(lt, pt));
            }
            i = i + 1;
        }
        proof {
            assert(self.labels@.take(self.labels@.len() as int) =~= self.labels@);
            assert(positions@.take(self.labels@.len() as int) =~= positions@);
        }
        out
    }
}

/// Diagnostics collected during compilation, in the order they were added.
#[derive(Debug, Default)]
pub struct Diagnostics {
    pub errors: Vec<Diagnostic>,
}

impl Diagnostics {
    /// An empty collection.
    pub fn new() -> (d: Self)
        ensures
            d.errors@.len() == 0,
    {
        Diagnostics { errors: Vec::new() }
    }

    /// Append a diagnostic.
    pub fn add(&mut self, diag: Diagnostic)
        ensures
            final(self).errors@ == old(self).errors@.push(diag),
    {
        self.errors.push(diag);
    }

    /// Whether some diagnostic has error severity.
    pub fn has_errors(&self) -> (b: bool)
        ensures
            b == exists|i: int| 0 <= i < self.errors@.len() && #[trigger] self.errors@[i].severity == Severity::Error,
    {
        let mut i: usize = 0;
        while i < self.errors.len()
            invariant
                i <= self.errors@.len(),
                forall|j: int| 0 <= j < i ==> #[trigger] self.errors@[j].severity != Severity::Error,
            decreases self.errors@.len() - i,
        {
            if self.errors[i].severity == Severity::Error {
                return true;
            }
            i = i + 1;
        }
        false
    }

    /// Show every diagnostic, separated by blank lines: `positions[i]`
    /// locates the labels of diagnostic `i`.
    pub fn render_all(&self, positions: &Vec<Vec<LabelPosition>>) -> (s: String)
        requires
            positions@.len() == self.errors@.len(),
            forall|i: int| 0 <= i < self.errors@.len() ==> positions_ok(#[trigger] self.errors@[i], positions@[i]@),
        ensures
            s@ == joined(
                Seq::new(self.errors@.len(), |i: int| rendered(self.errors@[i], positions@[i]@)),
                "\n"@,
            ),
    {
        let mut parts: Vec<String> = Vec::new();
        let mut i: usize = 0;
        while i < self.errors.len()
            invariant
                i <= self.errors@.len(),
                positions@.len() == self.errors@.len(),
                forall|j: int| 0 <= j < self.errors@.len() ==> positions_ok(#[trigger] self.errors@[j], positions@[j]@),
                parts@.len() == i,
                forall|j: int| 0 <= j < i ==> (#[trigger] parts@[j])@ == rendered(self.errors@[j], positions@[j]@),
            decreases self.errors@.len() - i,
        {
            let r = self.errors[i].render(&positions[i]);
            parts.push(r);
            i = i + 1;
        }
        let mut out = String::new();
        crate::text::push_joined(&mut out, &parts, "\n");
        proof {
            assert(parts@.map_values(|p: String| p@) =~= Seq::new(self.errors@.len(), |j: int| rendered(self.errors@[j], positions@[j]@)));
            assert(out@ =~= joined(parts@.map_values(|p: String| p@), "\n"@));
        }
        out
    }
}

} // verus!
