//! Context and pattern elements as acceptors.
//!
//! Each [`PhonContextElem`] becomes a small acceptor; a sequence is their
//! concatenation, with `<bdy>*` allowed before every atom and at the end so
//! that morpheme boundaries are transparent to contexts.

use vstd::prelude::*;

use crate::ast::{CharClassDef, PhonAtom, PhonContextElem, Quantifier};
use crate::text::{char_to_string, str_chars, str_to_owned, string_push_str};
use super::super::alphabet::{PhonruleAlphabet, BOUNDARY_LABEL, WORD_END_LABEL, WORD_START_LABEL};
use super::super::backend::Label;
use super::super::machine::{
    builder, copy_fst, closure_bounded, closure_optional, closure_plus, closure_star, concat, empty_machine,
    epsilon_machine, identity_pairs, is_loop_machine, is_step_machine, loop_machine, step_machine, union, Arc, Fst,
    concats, optionals, pluses, stars, unites,
};
use super::super::laws::repeats;
use super::super::table::FstTable;
use super::class::{
    alphabet_extends, char_labels, chars_known, class_resolves, compile_class, compile_class_complement,
    first_unknown_ref, lemma_extends_refl, lemma_extends_trans, members_ok, ClassCompileError,
};
use super::directed_replace::{between, concat_fold, union_fold};

verus! {

/// Error compiling a context or pattern element.
#[derive(Debug, Clone, PartialEq, Eq)]
pub enum ContextCompileError {
    /// A class (or `!class` complement) is not in the class table.
    UnknownClass { name: String },
    /// Compiling a class failed.
    Class(ClassCompileError),
    /// A syllable-aware element; the FST engine does not compile these.
    SyllableElemUnsupported { kind: String },
}

impl ContextCompileError {
    /// The message shown for this error.
    pub open spec fn msg(&self) -> Seq<char> {
        match self {
            ContextCompileError::UnknownClass { name } => "context elem references undefined or not-yet-compiled class '"@ + name@ + "'"@,
            ContextCompileError::Class(e) => e.msg(),
            ContextCompileError::SyllableElemUnsupported { kind } => "syllable-aware context element '"@ + kind@ + "' is not yet supported in the FST engine"@,
        }
    }

    /// The message shown for this error.
    pub fn message(&self) -> (s: String)
        ensures
            s@ == self.msg(),
    {
        match self {
            ContextCompileError::UnknownClass { name } => {
                let mut out = String::new();
                crate::text::string_push_str(&mut out, "context elem references undefined or not-yet-compiled class '");
                crate::text::string_push_str(&mut out, name.as_str());
                crate::text::string_push_str(&mut out, "'");
                out
            },
            ContextCompileError::Class(e) => e.message(),
            ContextCompileError::SyllableElemUnsupported { kind } => {
                let mut out = String::new();
                crate::text::string_push_str(&mut out, "syllable-aware context element '");
                crate::text::string_push_str(&mut out, kind.as_str());
                crate::text::string_push_str(&mut out, "' is not yet supported in the FST engine");
                out
            },
        }
    }
}

/// The table key of the complement of class `name`: `!name`.
pub open spec fn neg_key(name: Seq<char>) -> Seq<char> {
    seq!['!'] + name
}

/// The table key under which the complement of a class is stored.
pub fn neg_class_key(class_name: &str) -> (k: String)
    ensures
        k@ == neg_key(class_name@),
{
    let mut k = char_to_string('!');
    string_push_str(&mut k, class_name);
    k
}

/// Every bounded repeat in the element has `n <= m`.
pub open spec fn elem_bounds_ok(e: PhonContextElem) -> bool
    decreases e, 1int, 0int,
{
    match e {
        PhonContextElem::Atom(atom, q) => {
            &&& (q matches Quantifier::Range(n, m) ==> n <= m)
            &&& match atom {
                PhonAtom::Alt(alts) => elems_bounds_ok_upto(e, alts@, alts@.len() as int),
                _ => true,
            }
        },
        _ => true,
    }
}

/// [`elem_bounds_ok`] for the first `k` elements of `s`, the alternatives
/// of `parent`.
pub open spec fn elems_bounds_ok_upto(parent: PhonContextElem, s: Seq<PhonContextElem>, k: int) -> bool
    decreases parent, 0int, k,
{
    if k <= 0 || k > s.len() {
        true
    } else {
        &&& elems_bounds_ok_upto(parent, s, k - 1)
        &&& if decreases_to!(parent => s[k - 1]) {
            elem_bounds_ok(s[k - 1])
        } else {
            true
        }
    }
}

/// Every element of the sequence has ordered bounds.
pub open spec fn seq_bounds_ok(s: Seq<PhonContextElem>) -> bool {
    forall|i: int| 0 <= i < s.len() ==> elem_bounds_ok(#[trigger] s[i])
}

pub proof fn lemma_alt_bounds(alts: Vec<PhonContextElem>, q: Quantifier)
    requires
        elem_bounds_ok(PhonContextElem::Atom(PhonAtom::Alt(alts), q)),
    ensures
        seq_bounds_ok(alts@),
{
    let e = PhonContextElem::Atom(PhonAtom::Alt(alts), q);
    assert forall|i: int| 0 <= i < alts@.len() implies elem_bounds_ok(#[trigger] alts@[i]) by {
        lemma_upto(e, alts, alts@.len() as int, i);
    }
}

proof fn lemma_upto(e: PhonContextElem, alts: Vec<PhonContextElem>, k: int, i: int)
    requires
        e == PhonContextElem::Atom(PhonAtom::Alt(alts), e->Atom_1),
        0 <= i < k <= alts@.len(),
        elems_bounds_ok_upto(e, alts@, k),
    ensures
        elem_bounds_ok(alts@[i]),
    decreases k,
{
    if i < k - 1 {
        lemma_upto(e, alts, k - 1, i);
    } else {
        let a = PhonAtom::Alt(alts);
        assert(decreases_to!(e => e->Atom_0));
        assert(e->Atom_0 == a);
        assert(decreases_to!(a => a->Alt_0));
        assert(decreases_to!(alts => alts@));
        assert(decreases_to!(alts@ => alts@[i]));
        assert(decreases_to!(e => alts@[i]));
    }
}

/// The element compiles against `table`: it holds no syllable element, and
/// every class it names is in the table (a `!class` under its `!` key).
pub open spec fn elem_resolves(e: PhonContextElem, table: FstTable) -> bool
    decreases e, 1int, 0int,
{
    match e {
        PhonContextElem::Boundary | PhonContextElem::WordStart | PhonContextElem::WordEnd => true,
        PhonContextElem::Atom(atom, _) => match atom {
            PhonAtom::Class(id) => table.spec_get(id.node@) is Some,
            PhonAtom::NegClass(id) => table.spec_get(neg_key(id.node@)) is Some,
            PhonAtom::Literal(_) | PhonAtom::Wildcard => true,
            PhonAtom::Alt(alts) => elems_resolve_upto(e, alts@, alts@.len() as int, table),
            PhonAtom::SylBlock(_) => false,
        },
        _ => false,
    }
}

/// [`elem_resolves`] for the first `k` elements of `s`, the alternatives
/// of `parent`.
pub open spec fn elems_resolve_upto(parent: PhonContextElem, s: Seq<PhonContextElem>, k: int, table: FstTable) -> bool
    decreases parent, 0int, k,
{
    if k <= 0 || k > s.len() {
        true
    } else {
        &&& elems_resolve_upto(parent, s, k - 1, table)
        &&& if decreases_to!(parent => s[k - 1]) {
            elem_resolves(s[k - 1], table)
        } else {
            true
        }
    }
}

/// Every element of the sequence compiles against `table`.
pub open spec fn seq_resolves(s: Seq<PhonContextElem>, table: FstTable) -> bool {
    forall|i: int| 0 <= i < s.len() ==> elem_resolves(#[trigger] s[i], table)
}

/// An alternation compiles exactly when each of its alternatives does.
pub proof fn lemma_alt_resolves(alts: Vec<PhonContextElem>, q: Quantifier, table: FstTable)
    ensures
        elem_resolves(PhonContextElem::Atom(PhonAtom::Alt(alts), q), table) <==> seq_resolves(alts@, table),
{
    let e = PhonContextElem::Atom(PhonAtom::Alt(alts), q);
    let a = PhonAtom::Alt(alts);
    assert forall|i: int| 0 <= i < alts@.len() implies decreases_to!(e => #[trigger] alts@[i]) by {
        assert(decreases_to!(e => e->Atom_0));
        assert(e->Atom_0 == a);
        assert(decreases_to!(a => a->Alt_0));
        assert(decreases_to!(alts => alts@));
        assert(decreases_to!(alts@ => alts@[i]));
    }
    lemma_resolve_upto(e, alts@, alts@.len() as int, table);
}

proof fn lemma_resolve_upto(e: PhonContextElem, s: Seq<PhonContextElem>, k: int, table: FstTable)
    requires
        0 <= k <= s.len(),
        forall|i: int| 0 <= i < s.len() ==> decreases_to!(e => #[trigger] s[i]),
    ensures
        elems_resolve_upto(e, s, k, table) <==> forall|i: int| 0 <= i < k ==> elem_resolves(#[trigger] s[i], table),
    decreases k,
{
    if k > 0 {
        lemma_resolve_upto(e, s, k - 1, table);
        assert(decreases_to!(e => s[k - 1]));
    }
}

/// An alternation has ordered bounds exactly when its own repeat does and
/// each of its alternatives does.
pub proof fn lemma_alt_bounds_iff(alts: Vec<PhonContextElem>, q: Quantifier)
    ensures
        elem_bounds_ok(PhonContextElem::Atom(PhonAtom::Alt(alts), q)) <==> ((q matches Quantifier::Range(n, m) ==> n <= m)
            && seq_bounds_ok(alts@)),
{
    let e = PhonContextElem::Atom(PhonAtom::Alt(alts), q);
    let a = PhonAtom::Alt(alts);
    assert forall|i: int| 0 <= i < alts@.len() implies decreases_to!(e => #[trigger] alts@[i]) by {
        assert(decreases_to!(e => e->Atom_0));
        assert(e->Atom_0 == a);
        assert(decreases_to!(a => a->Alt_0));
        assert(decreases_to!(alts => alts@));
        assert(decreases_to!(alts@ => alts@[i]));
    }
    lemma_bounds_upto(e, alts@, alts@.len() as int);
}

proof fn lemma_bounds_upto(e: PhonContextElem, s: Seq<PhonContextElem>, k: int)
    requires
        0 <= k <= s.len(),
        forall|i: int| 0 <= i < s.len() ==> decreases_to!(e => #[trigger] s[i]),
    ensures
        elems_bounds_ok_upto(e, s, k) <==> forall|i: int| 0 <= i < k ==> elem_bounds_ok(#[trigger] s[i]),
    decreases k,
{
    if k > 0 {
        lemma_bounds_upto(e, s, k - 1);
        assert(decreases_to!(e => s[k - 1]));
    }
}

/// Whether every bounded repeat in the element has `n <= m`.
pub fn elem_bounds_hold(e: &PhonContextElem) -> (b: bool)
    ensures
        b == elem_bounds_ok(*e),
    decreases e,
{
    match e {
        PhonContextElem::Atom(atom, q) => {
            let q_ok = match q {
                Quantifier::Range(n, m) => *n <= *m,
                _ => true,
            };
            match atom {
                PhonAtom::Alt(alts) => {
                    proof {
                        lemma_alt_bounds_iff(*alts, *q);
                        assert(*e == PhonContextElem::Atom(PhonAtom::Alt(*alts), *q));
                        assert forall|i: int| 0 <= i < alts@.len() implies decreases_to!(*e => #[trigger] alts@[i]) by {
                            assert(decreases_to!(*e => e->Atom_0));
                            assert(decreases_to!(*atom => atom->Alt_0));
                            assert(decreases_to!(*alts => alts@));
                            assert(decreases_to!(alts@ => alts@[i]));
                        }
                    }
                    if !q_ok {
                        return false;
                    }
                    let mut k: usize = 0;
                    while k < alts.len()
                        invariant
                            k <= alts@.len(),
                            forall|i: int| 0 <= i < alts@.len() ==> decreases_to!(*e => #[trigger] alts@[i]),
                            forall|i: int| 0 <= i < k ==> elem_bounds_ok(#[trigger] alts@[i]),
                            elem_bounds_ok(*e) <==> seq_bounds_ok(alts@),
                        decreases alts@.len() - k,
                    {
                        if !elem_bounds_hold(&alts[k]) {
                            proof {
                                assert(!elem_bounds_ok(alts@[k as int]));
                                assert(!seq_bounds_ok(alts@));
                            }
                            return false;
                        }
                        k = k + 1;
                    }
                    true
                },
                _ => q_ok,
            }
        },
        _ => true,
    }
}

/// Whether every element of the sequence has ordered bounds.
pub fn seq_bounds_hold(s: &Vec<PhonContextElem>) -> (b: bool)
    ensures
        b == seq_bounds_ok(s@),
{
    let mut k: usize = 0;
    while k < s.len()
        invariant
            k <= s@.len(),
            forall|i: int| 0 <= i < k ==> elem_bounds_ok(#[trigger] s@[i]),
        decreases s@.len() - k,
    {
        if !elem_bounds_hold(&s[k]) {
            return false;
        }
        k = k + 1;
    }
    true
}

/// The one-step acceptor of one label.
fn single_label_acceptor(label: Label) -> (f: Fst)
    ensures
        f.wf(),
        is_step_machine(f, seq![(label, label)]),
{
    step_machine(&vec![(label, label)])
}

/// `<bdy>*`.
fn build_boundary_star() -> (f: Fst)
    ensures
        f.wf(),
        is_loop_machine(f, seq![(BOUNDARY_LABEL, BOUNDARY_LABEL)]),
{
    loop_machine(&vec![(BOUNDARY_LABEL, BOUNDARY_LABEL)])
}

/// One of `<bdy>`, `<^>`, `<$>`.
fn boundary_union_acceptor() -> (f: Fst)
    ensures
        f.wf(),
        is_step_machine(f, seq![
            (BOUNDARY_LABEL, BOUNDARY_LABEL),
            (WORD_START_LABEL, WORD_START_LABEL),
            (WORD_END_LABEL, WORD_END_LABEL),
        ]),
{
    step_machine(&vec![
        (BOUNDARY_LABEL, BOUNDARY_LABEL),
        (WORD_START_LABEL, WORD_START_LABEL),
        (WORD_END_LABEL, WORD_END_LABEL),
    ])
}

/// Any one Σ member.
fn compile_wildcard(alpha: &PhonruleAlphabet) -> (f: Fst)
    ensures
        f.wf(),
        is_step_machine(f, identity_pairs(alpha.sigma_seq())),
{
    let sigma = alpha.sigma();
    let mut pairs: Vec<(Label, Label)> = Vec::new();
    let mut i: usize = 0;
    while i < sigma.len()
        invariant
            i <= sigma@.len(),
            pairs@ == identity_pairs(sigma@.take(i as int)),
        decreases sigma@.len() - i,
    {
        pairs.push((sigma[i], sigma[i]));
        proof {
            assert(identity_pairs(sigma@.take(i + 1)) =~= identity_pairs(sigma@.take(i as int)).push((sigma@[i as int], sigma@[i as int])));
        }
        i = i + 1;
    }
    proof {
        assert(sigma@.take(sigma@.len() as int) =~= sigma@);
    }
    step_machine(&pairs)
}

/// The empty language: a start state and an unreachable final state.
fn empty_language_acceptor() -> (f: Fst)
    ensures
        f.wf(),
        is_step_machine(f, Seq::<(Label, Label)>::empty()),
{
    let v: Vec<(Label, Label)> = Vec::new();
    step_machine(&v)
}

/// Self-loops on each label of `skips` at state `s`.
pub open spec fn skip_loops(skips: Seq<Label>, s: int) -> Seq<Arc> {
    skips.map_values(|l: Label| Arc { ilabel: l, olabel: l, nextstate: s as usize })
}

/// State `s` of a skip chain: the skip loops (none at the first state),
/// then the arc reading and writing `labels[s]` to the next state.
pub open spec fn chain_row(labels: Seq<Label>, skips: Seq<Label>, s: int) -> Seq<Arc> {
    (if s == 0 { Seq::<Arc>::empty() } else { skip_loops(skips, s) }).push(
        Arc { ilabel: labels[s], olabel: labels[s], nextstate: (s + 1) as usize },
    )
}

/// The chain of `labels` (states `0..=len`, start `0`, final `len` only)
/// with a self-loop on each label of `skips` at every state strictly
/// between the first and the last.
pub open spec fn is_skip_chain(f: Fst, labels: Seq<Label>, skips: Seq<Label>) -> bool {
    &&& f.n() == labels.len() + 1
    &&& f.start == Some(0usize)
    &&& forall|s: int| 0 <= s < f.n() ==> #[trigger] f.is_final(s) == (s == labels.len())
    &&& forall|s: int| 0 <= s < labels.len() ==> #[trigger] f.rows()[s] == chain_row(labels, skips, s)
    &&& f.rows()[labels.len() as int] == Seq::<Arc>::empty()
}

/// A literal: its characters in order, with `<bdy>*` allowed between
/// them. The empty literal accepts the empty string.
fn compile_literal(lit: &str, alpha: &mut PhonruleAlphabet) -> (f: Fst)
    requires
        old(alpha).wf(),
    ensures
        f.wf(),
        alphabet_extends(*old(alpha), *final(alpha)),
        chars_known(*final(alpha), lit@),
        lit@.len() == 0 ==> is_loop_machine(f, Seq::<(Label, Label)>::empty()),
        lit@.len() > 0 ==> is_skip_chain(f, char_labels(*final(alpha), lit@), seq![BOUNDARY_LABEL]),
{
    proof {
        lemma_extends_refl(*alpha);
    }
    let chars = str_chars(lit);
    if chars.len() == 0 {
        return epsilon_machine();
    }
    let ghost a0 = *alpha;
    let ghost skips = seq![BOUNDARY_LABEL];
    let mut b = builder();
    let start = b.add_state();
    let _ = b.set_start(start);
    let mut prev = start;
    let mut i: usize = 0;
    while i < chars.len()
        invariant
            b.fst.wf(),
            chars@ == lit@,
            skips == seq![BOUNDARY_LABEL],
            prev == i,
            b.fst.n() == i + 1,
            b.fst.start == Some(0usize),
            forall|s: int| 0 <= s < b.fst.n() ==> !#[trigger] b.fst.is_final(s),
            forall|s: int| 0 <= s < i ==> #[trigger] b.fst.rows()[s] == chain_row(char_labels(*alpha, lit@.take(i as int)), skips, s),
            b.fst.rows()[i as int] == Seq::<Arc>::empty(),
            chars_known(*alpha, lit@.take(i as int)),
            i <= chars@.len(),
            a0.wf(),
            alphabet_extends(a0, *alpha),
            alphabet_extends(*old(alpha), *alpha),
        decreases chars@.len() - i,
    {
        let ghost r0 = b.fst.rows();
        let ghost f0 = b.fst;
        if i > 0 {
            let _ = b.add_arc(prev, BOUNDARY_LABEL, BOUNDARY_LABEL, prev);
            proof {
                assert(b.fst.rows()[i as int] =~= skip_loops(skips, i as int));
            }
        }
        let ghost r1 = b.fst.rows();
        let ghost fin1 = b.fst.finals@;
        let next = b.add_state();
        proof {
            assert forall|q: int| 0 <= q < b.fst.n() implies !#[trigger] b.fst.is_final(q) by {
                if q < i + 1 {
                    assert(!f0.is_final(q));
                    assert(b.fst.finals@[q] == fin1[q]);
                }
            }
        }
        let ghost a1 = *alpha;
        let s = char_to_string(chars[i]);
        let label = alpha.intern(s.as_str());
        proof {
            super::class::lemma_intern_extends(a1, *alpha, s@, label);
            lemma_extends_trans(a0, a1, *alpha);
            lemma_extends_trans(*old(alpha), a1, *alpha);
            super::class::lemma_char_labels_stable(a1, *alpha, lit@.take(i as int));
        }
        let ghost f4 = b.fst;
        let _ = b.add_arc(prev, label, label, next);
        proof {
            assert forall|q: int| 0 <= q < b.fst.n() implies !#[trigger] b.fst.is_final(q) by {
                assert(!f4.is_final(q));
            }
            let t = lit@.take(i + 1);
            assert(t.take(i as int) =~= lit@.take(i as int));
            assert(t[i as int] == lit@[i as int]);
            assert(chars_known(*alpha, t)) by {
                assert forall|k: int| 0 <= k < t.len() implies alpha.spec_lookup(seq![#[trigger] t[k]]) is Some by {
                    if k < i {
                        assert(t[k] == lit@.take(i as int)[k]);
                    } else {
                        assert(s@ == seq![lit@[i as int]]);
                    }
                }
            }
            let cl = char_labels(*alpha, t);
            assert forall|k: int| 0 <= k < i implies cl[k] == char_labels(*alpha, lit@.take(i as int))[k] by {
                assert(t[k] == lit@.take(i as int)[k]);
            }
            assert(cl[i as int] == label) by {
                assert(s@ == seq![t[i as int]]);
            }
            assert forall|q: int| 0 <= q < i + 1 implies #[trigger] b.fst.rows()[q] == chain_row(cl, skips, q) by {
                if q < i {
                    assert(chain_row(cl, skips, q) =~= chain_row(char_labels(*alpha, lit@.take(i as int)), skips, q));
                } else {
                    if i == 0 {
                        assert(b.fst.rows()[q] =~= chain_row(cl, skips, q));
                    } else {
                        assert(b.fst.rows()[q] =~= chain_row(cl, skips, q));
                    }
                }
            }
        }
        prev = next;
        i = i + 1;
    }
    let ghost fin2 = b.fst.finals@;
    let ghost f3 = b.fst;
    let _ = b.set_final(prev);
    proof {
        assert(lit@.take(lit@.len() as int) =~= lit@);
        assert(b.fst.rows() == b.fst.arcs@.map_values(|v: Vec<Arc>| v@));
        assert forall|q: int| 0 <= q < b.fst.n() implies #[trigger] b.fst.is_final(q) == (q == lit@.len()) by {
            assert(b.fst.finals@ == fin2.update(prev as int, true));
            if q != prev {
                assert(!f3.is_final(q));
            }
        }
    }
    match b.finish() {
        Ok(f) => f,
        Err(_) => empty_machine(),
    }
}

/// `f` is `base` under the quantifier: itself once, the empty string for
/// zero copies, `n..=m` copies, `*`, `+`, `?`, or `n` copies followed by
/// any number more.
pub open spec fn quantified(f: Fst, base: Fst, quant: Quantifier) -> bool {
    match quant {
        Quantifier::Exact(n) => if n == 1 {
            f == base
        } else if n == 0 {
            is_loop_machine(f, Seq::<(Label, Label)>::empty())
        } else {
            repeats(f, base, n as int, n as int)
        },
        Quantifier::Star => stars(f, base),
        Quantifier::Plus => pluses(f, base),
        Quantifier::Question => optionals(f, base),
        Quantifier::AtLeast(n) => if n == 0 {
            stars(f, base)
        } else {
            exists|head: Fst, st: Fst|
                #![trigger concats(f, head, st)]
                repeats(head, base, n as int, n as int) && stars(st, base) && concats(f, head, st)
        },
        Quantifier::Range(n, m) => repeats(f, base, n as int, m as int),
    }
}

/// Wrap an acceptor with the element's quantifier.
fn apply_quantifier(base: Fst, quant: Quantifier) -> (f: Fst)
    requires
        base.wf(),
        quant matches Quantifier::Range(n, m) ==> n <= m,
    ensures
        f.wf(),
        quantified(f, base, quant),
{
    match quant {
        Quantifier::Exact(n) => {
            if n == 1 {
                base
            } else if n == 0 {
                epsilon_machine()
            } else {
                match closure_bounded(&base, n, n) {
                    Ok(f) => f,
                    Err(_) => base,
                }
            }
        },
        Quantifier::Star => closure_star(&base),
        Quantifier::Plus => closure_plus(&base),
        Quantifier::Question => closure_optional(&base),
        Quantifier::AtLeast(n) => {
            let star = closure_star(&base);
            if n == 0 {
                star
            } else {
                match closure_bounded(&base, n, n) {
                    Ok(head) => {
                        let f = concat(&head, &star);
                        proof {
                            assert(concats(f, head, star));
                        }
                        f
                    },
                    Err(_) => star,
                }
            }
        },
        Quantifier::Range(n, m) => {
            match closure_bounded(&base, n, m) {
                Ok(f) => f,
                Err(_) => base,
            }
        },
    }
}

/// `f` has the start, final states and arcs of `g`.
pub open spec fn same_machine(f: Fst, g: Fst) -> bool {
    &&& f.start == g.start
    &&& f.finals@ == g.finals@
    &&& f.rows() == g.rows()
}

/// `f` is the acceptor [`compile_context_elem`] builds for `e`, the
/// alphabet growing from `a0` to `a1`: `<bdy>` one of the three stream
/// markers, `<^>` and `<$>` themselves; an atom's base acceptor under its
/// quantifier, the base being the table's acceptor for a class (for
/// `!class` the one stored under `!class`), a literal's characters with
/// `<bdy>*` between them, one Σ member, or the union of an alternation's
/// arms in order.
pub open spec fn ctx_elem_of(f: Fst, e: PhonContextElem, a0: PhonruleAlphabet, a1: PhonruleAlphabet, table: FstTable) -> bool
    decreases e, 1int, 0int,
{
    match e {
        PhonContextElem::Boundary => is_step_machine(f, seq![
            (BOUNDARY_LABEL, BOUNDARY_LABEL),
            (WORD_START_LABEL, WORD_START_LABEL),
            (WORD_END_LABEL, WORD_END_LABEL),
        ]),
        PhonContextElem::WordStart => is_step_machine(f, seq![(WORD_START_LABEL, WORD_START_LABEL)]),
        PhonContextElem::WordEnd => is_step_machine(f, seq![(WORD_END_LABEL, WORD_END_LABEL)]),
        PhonContextElem::Atom(atom, q) => exists|base: Fst|
            #![trigger quantified(f, base, q)]
            {
                &&& quantified(f, base, q)
                &&& match atom {
                    PhonAtom::Class(n) => table.spec_get(n.node@) is Some && same_machine(base, table.spec_get(n.node@)->0),
                    PhonAtom::NegClass(n) => table.spec_get(neg_key(n.node@)) is Some && same_machine(
                        base,
                        table.spec_get(neg_key(n.node@))->0,
                    ),
                    PhonAtom::Literal(lit) => chars_known(a1, lit.node@) && (lit.node@.len() == 0 ==> is_loop_machine(
                        base,
                        Seq::<(Label, Label)>::empty(),
                    )) && (lit.node@.len() > 0 ==> is_skip_chain(base, char_labels(a1, lit.node@), seq![BOUNDARY_LABEL])),
                    PhonAtom::Wildcard => exists|a: PhonruleAlphabet|
                        #![trigger between(a0, a, a1)]
                        between(a0, a, a1) && is_step_machine(base, identity_pairs(a.sigma_seq())),
                    PhonAtom::Alt(alts) => ctx_alt_of(base, e, alts@, a0, a1, table),
                    PhonAtom::SylBlock(_) => false,
                }
            },
        _ => false,
    }
}

/// The base of an alternation: the empty language without arms, else the
/// union of its arms' acceptors in order.
pub open spec fn ctx_alt_of(
    base: Fst,
    e: PhonContextElem,
    alts: Seq<PhonContextElem>,
    a0: PhonruleAlphabet,
    a1: PhonruleAlphabet,
    table: FstTable,
) -> bool
    decreases e, 0int, alts.len() + 1,
{
    if alts.len() == 0 {
        is_step_machine(base, Seq::<(Label, Label)>::empty())
    } else {
        exists|ms: Seq<Fst>, accs: Seq<Fst>, als: Seq<PhonruleAlphabet>|
            #![trigger union_fold(base, ms, accs), als.len()]
            {
                &&& ms.len() == alts.len()
                &&& als.len() == alts.len() + 1
                &&& als[0] == a0
                &&& als.last() == a1
                &&& union_fold(base, ms, accs)
                &&& ctx_arms_upto(e, alts, ms, als, table, alts.len() as int)
            }
    }
}

/// The first `k` arms of `parent` were built as [`ctx_elem_of`] describes,
/// arm `i` growing the alphabet from `als[i]` to `als[i + 1]`.
pub open spec fn ctx_arms_upto(
    parent: PhonContextElem,
    alts: Seq<PhonContextElem>,
    ms: Seq<Fst>,
    als: Seq<PhonruleAlphabet>,
    table: FstTable,
    k: int,
) -> bool
    decreases parent, 0int, k,
{
    if k <= 0 || k > alts.len() || k > ms.len() || k + 1 > als.len() {
        k <= 0
    } else {
        &&& ctx_arms_upto(parent, alts, ms, als, table, k - 1)
        &&& if decreases_to!(parent => alts[k - 1]) {
            ctx_elem_of(ms[k - 1], alts[k - 1], als[k - 1], als[k], table)
        } else {
            true
        }
    }
}

/// Lengthening the machine and alphabet lists keeps what their first
/// entries say.
proof fn lemma_ctx_arms_prefix(
    parent: PhonContextElem,
    alts: Seq<PhonContextElem>,
    ms: Seq<Fst>,
    als: Seq<PhonruleAlphabet>,
    ms2: Seq<Fst>,
    als2: Seq<PhonruleAlphabet>,
    table: FstTable,
    k: int,
)
    requires
        0 <= k <= ms.len() <= ms2.len(),
        k + 1 <= als.len() <= als2.len(),
        k <= alts.len(),
        forall|i: int| 0 <= i < ms.len() ==> ms2[i] == ms[i],
        forall|i: int| 0 <= i < als.len() ==> als2[i] == als[i],
        ctx_arms_upto(parent, alts, ms, als, table, k),
    ensures
        ctx_arms_upto(parent, alts, ms2, als2, table, k),
    decreases k,
{
    if k > 0 {
        lemma_ctx_arms_prefix(parent, alts, ms, als, ms2, als2, table, k - 1);
    }
}

/// `f` is the acceptor [`compile_context_sequence`] builds: without
/// elements the empty string; else the concatenation, in order, of each
/// element's acceptor (an atom's preceded by `<bdy>*`), followed by
/// `<bdy>*`, the alphabet growing through `als`.
pub open spec fn ctx_seq_of(f: Fst, elems: Seq<PhonContextElem>, a0: PhonruleAlphabet, a1: PhonruleAlphabet, table: FstTable) -> bool {
    if elems.len() == 0 {
        is_loop_machine(f, Seq::<(Label, Label)>::empty())
    } else {
        exists|ws: Seq<Fst>, accs: Seq<Fst>, ms: Seq<Fst>, als: Seq<PhonruleAlphabet>, acc: Fst, bdy: Fst|
            #![trigger concat_fold(acc, ws, accs), concats(f, acc, bdy), als.len(), ms.len()]
            {
                &&& is_loop_machine(bdy, seq![(BOUNDARY_LABEL, BOUNDARY_LABEL)])
                &&& concat_fold(acc, ws, accs)
                &&& concats(f, acc, bdy)
                &&& ws.len() == elems.len()
                &&& ms.len() == elems.len()
                &&& als.len() == elems.len() + 1
                &&& als[0] == a0
                &&& als.last() == a1
                &&& forall|i: int| 0 <= i < elems.len() ==> ctx_elem_of(#[trigger] ms[i], elems[i], als[i], als[i + 1], table)
                &&& forall|i: int| 0 <= i < elems.len() ==> if elems[i] is Atom {
                    concats(#[trigger] ws[i], bdy, ms[i])
                } else {
                    ws[i] == ms[i]
                }
            }
    }
}

/// The message kind of a syllable element.
pub open spec fn syllable_kind_of(elem: PhonContextElem) -> Seq<char> {
    match elem {
        PhonContextElem::SylHead => "%syl<head>%"@,
        PhonContextElem::SylTail => "%syl<tail>%"@,
        _ => "%syl<#N>%"@,
    }
}

/// The message kind of a syllable element.
fn syllable_kind(elem: &PhonContextElem) -> (s: String)
    ensures
        s@ == syllable_kind_of(*elem),
{
    match elem {
        PhonContextElem::SylHead => str_to_owned("%syl<head>%"),
        PhonContextElem::SylTail => str_to_owned("%syl<tail>%"),
        _ => str_to_owned("%syl<#N>%"),
    }
}

/// Compile one element.
///
/// `<bdy>` matches any of the three stream markers; `<^>` / `<$>` match
/// themselves; a class atom takes its acceptor from the table (a `!class`
/// atom the complement stored under `!class`); a literal matches its
/// characters; `.` matches one Σ member; an alternation is the union of
/// its alternatives. Syllable elements are rejected.
pub fn compile_context_elem(elem: &PhonContextElem, alpha: &mut PhonruleAlphabet, class_table: &FstTable) -> (r: Result<Fst, ContextCompileError>)
    requires
        old(alpha).wf(),
        class_table.wf(),
        elem_bounds_ok(*elem),
    ensures
        alphabet_extends(*old(alpha), *final(alpha)),
        r matches Ok(f) ==> f.wf(),
        r is Ok <==> elem_resolves(*elem, *class_table),
        r matches Ok(f) ==> ctx_elem_of(f, *elem, *old(alpha), *final(alpha), *class_table),
        r matches Err(ContextCompileError::UnknownClass { name }) ==> class_table.spec_get(name@) is None,
        !(r matches Err(ContextCompileError::Class(_))),
        (elem is SylHead || elem is SylTail || elem is SylIndex) ==> (r matches Err(
            ContextCompileError::SyllableElemUnsupported { kind },
        ) && kind@ == syllable_kind_of(*elem)),
        (elem matches PhonContextElem::Atom(PhonAtom::SylBlock(_), _)) ==> (r matches Err(
            ContextCompileError::SyllableElemUnsupported { kind },
        ) && kind@ == "%syl[ ... ]%"@),
        elem matches PhonContextElem::Atom(PhonAtom::Class(n), _) ==> (class_table.spec_get(n.node@) is None ==> (r matches Err(
            ContextCompileError::UnknownClass { name },
        ) && name@ == n.node@)),
        elem matches PhonContextElem::Atom(PhonAtom::NegClass(n), _) ==> (class_table.spec_get(neg_key(n.node@)) is None ==> (
        r matches Err(ContextCompileError::UnknownClass { name }) && name@ == neg_key(n.node@))),
    decreases elem,
{
    proof {
        lemma_extends_refl(*alpha);
    }
    match elem {
        PhonContextElem::Boundary => Ok(boundary_union_acceptor()),
        PhonContextElem::WordStart => Ok(single_label_acceptor(WORD_START_LABEL)),
        PhonContextElem::WordEnd => Ok(single_label_acceptor(WORD_END_LABEL)),
        PhonContextElem::SylHead | PhonContextElem::SylTail | PhonContextElem::SylIndex(_) => {
            Err(ContextCompileError::SyllableElemUnsupported { kind: syllable_kind(elem) })
        },
        PhonContextElem::Atom(atom, quant) => {
            let ghost a0 = *alpha;
            let base = match atom {
                PhonAtom::Class(ident) => match class_table.get(ident.node.as_str()) {
                    Some(f) => {
                        proof {
                            class_table.lemma_get_wf(ident.node@);
                        }
                        copy_fst(f)
                    },
                    None => {
                        return Err(ContextCompileError::UnknownClass { name: ident.node.clone() });
                    },
                },
                PhonAtom::NegClass(ident) => {
                    let key = neg_class_key(ident.node.as_str());
                    match class_table.get(key.as_str()) {
                        Some(f) => {
                            proof {
                                class_table.lemma_get_wf(key@);
                            }
                            copy_fst(f)
                        },
                        None => {
                            return Err(ContextCompileError::UnknownClass { name: key });
                        },
                    }
                },
                PhonAtom::Literal(lit) => compile_literal(lit.node.as_str(), alpha),
                PhonAtom::Wildcard => {
                    proof {
                        lemma_extends_refl(*alpha);
                        assert(between(a0, *alpha, *alpha));
                    }
                    compile_wildcard(alpha)
                },
                PhonAtom::Alt(alts) => {
                    proof {
                        assert(*elem == PhonContextElem::Atom(PhonAtom::Alt(*alts), *quant));
                        lemma_alt_bounds(*alts, *quant);
                        lemma_alt_resolves(*alts, *quant, *class_table);
                        assert forall|i: int| 0 <= i < alts@.len() implies decreases_to!(*elem => #[trigger] alts@[i]) by {
                            assert(decreases_to!(*elem => elem->Atom_0));
                            assert(decreases_to!(*atom => atom->Alt_0));
                            assert(decreases_to!(*alts => alts@));
                            assert(decreases_to!(alts@ => alts@[i]));
                        }
                    }
                    compile_alternation(alts, alpha, class_table, elem)?
                },
                PhonAtom::SylBlock(_) => {
                    return Err(ContextCompileError::SyllableElemUnsupported { kind: str_to_owned("%syl[ ... ]%") });
                },
            };
            let f = apply_quantifier(base, *quant);
            proof {
                assert(quantified(f, base, *quant));
            }
            Ok(f)
        },
    }
}

/// The union of the alternatives; the empty alternation is the empty
/// language.
fn compile_alternation(alts: &Vec<PhonContextElem>, alpha: &mut PhonruleAlphabet, class_table: &FstTable, parent: &PhonContextElem) -> (r: Result<Fst, ContextCompileError>)
    requires
        old(alpha).wf(),
        class_table.wf(),
        seq_bounds_ok(alts@),
        forall|i: int| 0 <= i < alts@.len() ==> decreases_to!(*parent => #[trigger] alts@[i]),
    ensures
        alphabet_extends(*old(alpha), *final(alpha)),
        r matches Ok(f) ==> f.wf(),
        r is Ok <==> seq_resolves(alts@, *class_table),
        r matches Ok(f) ==> ctx_alt_of(f, *parent, alts@, *old(alpha), *final(alpha), *class_table),
        r matches Err(ContextCompileError::UnknownClass { name }) ==> class_table.spec_get(name@) is None,
        !(r matches Err(ContextCompileError::Class(_))),
    decreases parent, 0int,
{
    proof {
        lemma_extends_refl(*alpha);
    }
    if alts.len() == 0 {
        return Ok(empty_language_acceptor());
    }
    let ghost a0 = *alpha;
    proof {
        assert(elem_bounds_ok(alts@[0]));
    }
    let first = compile_context_elem(&alts[0], alpha, class_table)?;
    let ghost mut ms: Seq<Fst> = seq![first];
    let ghost mut accs: Seq<Fst> = seq![first];
    let ghost mut als: Seq<PhonruleAlphabet> = seq![a0, *alpha];
    proof {
        assert(decreases_to!(*parent => alts@[0]));
        assert(ctx_arms_upto(*parent, alts@, ms, als, *class_table, 0));
        assert(ctx_elem_of(ms[0], alts@[0], als[0], als[1], *class_table));
        assert(ctx_arms_upto(*parent, alts@, ms, als, *class_table, 1));
    }
    let mut acc = first;
    let mut i: usize = 1;
    while i < alts.len()
        invariant
            1 <= i <= alts@.len(),
            class_table.wf(),
            acc.wf(),
            a0.wf(),
            a0 == *old(alpha),
            alphabet_extends(a0, *alpha),
            seq_bounds_ok(alts@),
            forall|j: int| 0 <= j < alts@.len() ==> decreases_to!(*parent => #[trigger] alts@[j]),
            forall|j: int| 0 <= j < i ==> elem_resolves(#[trigger] alts@[j], *class_table),
            ms.len() == i,
            als.len() == i + 1,
            als[0] == a0,
            als.last() == *alpha,
            union_fold(acc, ms, accs),
            ctx_arms_upto(*parent, alts@, ms, als, *class_table, i as int),
        decreases alts@.len() - i,
    {
        let ghost a1 = *alpha;
        proof {
            assert(elem_bounds_ok(alts@[i as int]));
            assert(decreases_to!(*parent => alts@[i as int]));
        }
        let res = compile_context_elem(&alts[i], alpha, class_table);
        proof {
            lemma_extends_trans(a0, a1, *alpha);
        }
        let next = match res {
            Ok(f) => f,
            Err(e) => {
                return Err(e);
            },
        };
        let nacc = union(&acc, &next);
        proof {
            let ms2 = ms.push(next);
            let als2 = als.push(*alpha);
            lemma_ctx_arms_prefix(*parent, alts@, ms, als, ms2, als2, *class_table, i as int);
            assert(decreases_to!(*parent => alts@[i as int]));
            assert(ms2[i as int] == next && als2[i as int] == a1 && als2[i + 1] == *alpha);
            assert(ctx_arms_upto(*parent, alts@, ms2, als2, *class_table, i + 1));
            let accs2 = accs.push(nacc);
            assert(union_fold(nacc, ms2, accs2)) by {
                assert forall|j: int| 1 <= j < ms2.len() implies unites(#[trigger] accs2[j], accs2[j - 1], ms2[j]) by {
                    if j < i {
                        assert(accs2[j] == accs[j] && accs2[j - 1] == accs[j - 1] && ms2[j] == ms[j]);
                    }
                }
            }
            ms = ms2;
            als = als2;
            accs = accs2;
        }
        acc = nacc;
        i = i + 1;
    }
    proof {
        assert(ctx_alt_of(acc, *parent, alts@, a0, *alpha, *class_table));
    }
    Ok(acc)
}

/// Compile a context sequence: the concatenation of its elements, with
/// `<bdy>*` before each atom and at the end. The empty sequence is the
/// one-state ε-acceptor: it matches at any position without consuming.
pub fn compile_context_sequence(elems: &Vec<PhonContextElem>, alpha: &mut PhonruleAlphabet, class_table: &FstTable) -> (r: Result<Fst, ContextCompileError>)
    requires
        old(alpha).wf(),
        class_table.wf(),
        seq_bounds_ok(elems@),
    ensures
        alphabet_extends(*old(alpha), *final(alpha)),
        r matches Ok(f) ==> f.wf(),
        r is Ok <==> seq_resolves(elems@, *class_table),
        r matches Err(ContextCompileError::UnknownClass { name }) ==> class_table.spec_get(name@) is None,
        !(r matches Err(ContextCompileError::Class(_))),
        elems@.len() == 0 ==> (r matches Ok(f) && is_loop_machine(f, Seq::<(Label, Label)>::empty())),
        r matches Ok(f) ==> ctx_seq_of(f, elems@, *old(alpha), *final(alpha), *class_table),
{
    proof {
        lemma_extends_refl(*alpha);
    }
    if elems.len() == 0 {
        return Ok(epsilon_machine());
    }
    let bdy_star = build_boundary_star();
    let ghost a0 = *alpha;
    let mut acc: Option<Fst> = None;
    let ghost mut ws: Seq<Fst> = seq![];
    let ghost mut accs: Seq<Fst> = seq![];
    let ghost mut ms: Seq<Fst> = seq![];
    let ghost mut als: Seq<PhonruleAlphabet> = seq![a0];
    let mut i: usize = 0;
    while i < elems.len()
        invariant
            i <= elems@.len(),
            class_table.wf(),
            bdy_star.wf(),
            is_loop_machine(bdy_star, seq![(BOUNDARY_LABEL, BOUNDARY_LABEL)]),
            acc matches Some(f) ==> f.wf(),
            i > 0 ==> acc is Some,
            i == 0 ==> acc is None,
            a0.wf(),
            a0 == *old(alpha),
            alphabet_extends(a0, *alpha),
            seq_bounds_ok(elems@),
            forall|j: int| 0 <= j < i ==> elem_resolves(#[trigger] elems@[j], *class_table),
            ws.len() == i,
            accs.len() == i,
            ms.len() == i,
            als.len() == i + 1,
            als[0] == a0,
            als.last() == *alpha,
            acc matches Some(f) ==> concat_fold(f, ws, accs),
            forall|j: int| 0 <= j < i ==> ctx_elem_of(#[trigger] ms[j], elems@[j], als[j], als[j + 1], *class_table),
            forall|j: int| 0 <= j < i ==> if elems@[j] is Atom {
                concats(#[trigger] ws[j], bdy_star, ms[j])
            } else {
                ws[j] == ms[j]
            },
        decreases elems@.len() - i,
    {
        let ghost a1 = *alpha;
        proof {
            assert(elem_bounds_ok(elems@[i as int]));
        }
        let res = compile_context_elem(&elems[i], alpha, class_table);
        proof {
            lemma_extends_trans(a0, a1, *alpha);
        }
        let next = match res {
            Ok(f) => f,
            Err(e) => {
                return Err(e);
            },
        };
        let ghost nx = next;
        let wrapped = match &elems[i] {
            PhonContextElem::Atom(_, _) => concat(&bdy_star, &next),
            _ => next,
        };
        let ghost acc0 = acc;
        acc = match acc {
            None => Some(wrapped),
            Some(prev) => Some(concat(&prev, &wrapped)),
        };
        proof {
            let ws2 = ws.push(wrapped);
            let ms2 = ms.push(nx);
            let als2 = als.push(*alpha);
            let accs2 = accs.push(acc->0);
            assert forall|j: int| 0 <= j < i + 1 implies ctx_elem_of(#[trigger] ms2[j], elems@[j], als2[j], als2[j + 1], *class_table) by {
                if j < i {
                    assert(ms2[j] == ms[j] && als2[j] == als[j] && als2[j + 1] == als[j + 1]);
                }
            }
            assert forall|j: int| 0 <= j < i + 1 implies if elems@[j] is Atom {
                concats(#[trigger] ws2[j], bdy_star, ms2[j])
            } else {
                ws2[j] == ms2[j]
            } by {
                if j < i {
                    assert(ws2[j] == ws[j] && ms2[j] == ms[j]);
                }
            }
            assert(concat_fold(acc->0, ws2, accs2)) by {
                if i > 0 {
                    let prev = acc0->0;
                    assert(prev == accs.last());
                    assert(concats(acc->0, prev, wrapped));
                    assert(accs2[i as int] == acc->0 && accs2[i - 1] == prev && ws2[i as int] == wrapped);
                    assert(accs2[0] == ws2[0]);
                } else {
                    assert(accs2[0] == ws2[0]);
                }
                assert forall|j: int| 1 <= j < ws2.len() implies concats(#[trigger] accs2[j], accs2[j - 1], ws2[j]) by {
                    if j < i {
                        assert(accs2[j] == accs[j] && accs2[j - 1] == accs[j - 1] && ws2[j] == ws[j]);
                    }
                }
            }
            ws = ws2;
            ms = ms2;
            als = als2;
            accs = accs2;
        }
        i = i + 1;
    }
    match acc {
        Some(a) => {
            let f = concat(&a, &bdy_star);
            proof {
                assert(concats(f, a, bdy_star));
                assert(ctx_seq_of(f, elems@, a0, *alpha, *class_table));
            }
            Ok(f)
        },
        None => Ok(bdy_star),
    }
}

/// Compile the left-hand side of a rewrite given as an element sequence;
/// the same construction as [`compile_context_sequence`].
pub fn compile_pattern_sequence(elems: &Vec<PhonContextElem>, alpha: &mut PhonruleAlphabet, class_table: &FstTable) -> (r: Result<Fst, ContextCompileError>)
    requires
        old(alpha).wf(),
        class_table.wf(),
        seq_bounds_ok(elems@),
    ensures
        alphabet_extends(*old(alpha), *final(alpha)),
        r matches Ok(f) ==> f.wf(),
        r is Ok <==> seq_resolves(elems@, *class_table),
        r matches Ok(f) ==> ctx_seq_of(f, elems@, *old(alpha), *final(alpha), *class_table),
        r matches Err(ContextCompileError::UnknownClass { name }) ==> class_table.spec_get(name@) is None,
        !(r matches Err(ContextCompileError::Class(_))),
{
    compile_context_sequence(elems, alpha, class_table)
}

/// `f` accepts exactly the class's member symbols, one at a time.
pub open spec fn class_acceptor_of(f: Fst, class: CharClassDef, a: PhonruleAlphabet, table: FstTable) -> bool {
    exists|m: Seq<Label>| #[trigger] members_ok(class, a, table, m) && is_step_machine(f, identity_pairs(m))
}

/// `f` accepts exactly the Σ symbols that are not class members, one at a
/// time.
pub open spec fn complement_acceptor_of(f: Fst, class: CharClassDef, a: PhonruleAlphabet, table: FstTable) -> bool {
    exists|m: Seq<Label>, c: Seq<Label>|
        #![trigger members_ok(class, a, table, m), identity_pairs(c)]
        members_ok(class, a, table, m) && is_step_machine(f, identity_pairs(c)) && c.no_duplicates() && forall|l: Label|
            #[trigger] c.contains(l) <==> (a.sigma_seq().contains(l) && !m.contains(l))
}

/// Compile a class and its complement: `(name, class, !name, complement)`,
/// the class as [`compile_class`] builds it and the complement as
/// [`compile_class_complement`] does.
pub fn compile_class_and_complement(class: &CharClassDef, alpha: &mut PhonruleAlphabet, class_table: &FstTable) -> (r: Result<(String, Fst, String, Fst), ContextCompileError>)
    requires
        old(alpha).wf(),
        class_table.wf(),
    ensures
        alphabet_extends(*old(alpha), *final(alpha)),
        r is Ok <==> super::class::class_resolves(*class, *class_table),
        r matches Ok((n, pos, k, neg)) ==> n@ == class.name.node@ && k@ == neg_key(class.name.node@) && pos.wf()
            && neg.wf() && (exists|a: PhonruleAlphabet|
            #![trigger between(*old(alpha), a, *final(alpha))]
            between(*old(alpha), a, *final(alpha)) && class_acceptor_of(pos, *class, a, *class_table))
            && complement_acceptor_of(neg, *class, *final(alpha), *class_table),
        r matches Err(e) ==> (e matches ContextCompileError::Class(ce) && first_unknown_ref(*class, *class_table, ce)),
{
    let ghost a0 = *alpha;
    let pos = match compile_class(class, alpha, class_table) {
        Ok(f) => f,
        Err(e) => {
            return Err(ContextCompileError::Class(e));
        },
    };
    let ghost a1 = *alpha;
    let neg = match compile_class_complement(class, alpha, class_table) {
        Ok(f) => f,
        Err(e) => {
            return Err(ContextCompileError::Class(e));
        },
    };
    proof {
        lemma_extends_trans(a0, a1, *alpha);
        assert(between(a0, a1, *alpha));
        assert(class_acceptor_of(pos, *class, a1, *class_table));
    }
    Ok((class.name.node.clone(), pos, neg_class_key(class.name.node.as_str()), neg))
}

} // verus!
