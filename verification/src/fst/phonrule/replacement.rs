//! The replace step of the bracketed replacement construction.
//!
//! The transducer repeats, any number of times, either one outside step
//! (the identity on one Σ member, stream marker or obligatory bracket) or
//! one replacement event `<[+]> LHS:RHS <]+>`, which reads the left-hand
//! side between brackets and writes the right-hand side.

use vstd::prelude::*;

use crate::ast::{PhonPattern, PhonReplacement, PhonRewriteRule};
use crate::text::{char_to_string, str_chars};
use super::super::alphabet::{
    PhonruleAlphabet, BOUNDARY_LABEL, BRACKET_CLOSE_OBLIG_LABEL, BRACKET_OPEN_OBLIG_LABEL, WORD_END_LABEL,
    WORD_START_LABEL,
};
use super::super::backend::{Label, EPS_LABEL};
use super::super::machine::{
    arc_sort_input, arc_sort_output, chain_machine, closure_star, compose, concat, copy_fst, epsilon_machine,
    loop_machine, step_machine, union, Fst, accepts, is_chain_machine, is_loop_machine, is_step_machine, is_run,
    run_ilabels, run_olabels, strip_eps,
};
use super::super::laws::{
    flat_in, flat_out, joins, lemma_concat_language, lemma_single_step, lemma_star_language, lemma_step_accepts,
    lemma_step_language, lemma_union_language,
};
use super::super::table::FstTable;
use super::class::{alphabet_extends, char_labels, chars_known, lemma_extends_refl, lemma_extends_trans, lemma_intern_extends};
use super::context::{compile_pattern_sequence, seq_bounds_ok, seq_resolves, ContextCompileError};

verus! {

/// Error building a replacement transducer.
#[derive(Debug, Clone, PartialEq, Eq)]
pub enum ReplacementCompileError {
    /// The left-hand side names a class that is not in the class table.
    UnknownClass { name: String },
    /// The right-hand side names a map that is not in the map table.
    UnknownMap { name: String },
    /// Compiling a left-hand-side element sequence failed.
    Context(ContextCompileError),
}

impl ReplacementCompileError {
    /// The message shown for this error.
    pub open spec fn msg(&self) -> Seq<char> {
        match self {
            ReplacementCompileError::UnknownClass { name } => "rewrite rule LHS references undefined or not-yet-compiled class '"@ + name@ + "'"@,
            ReplacementCompileError::UnknownMap { name } => "rewrite rule RHS references undefined or not-yet-compiled map '"@ + name@ + "'"@,
            ReplacementCompileError::Context(e) => e.msg(),
        }
    }

    /// The message shown for this error.
    pub fn message(&self) -> (s: String)
        ensures
            s@ == self.msg(),
    {
        match self {
            ReplacementCompileError::UnknownClass { name } => {
                let mut out = String::new();
                crate::text::string_push_str(&mut out, "rewrite rule LHS references undefined or not-yet-compiled class '");
                crate::text::string_push_str(&mut out, name.as_str());
                crate::text::string_push_str(&mut out, "'");
                out
            },
            ReplacementCompileError::UnknownMap { name } => {
                let mut out = String::new();
                crate::text::string_push_str(&mut out, "rewrite rule RHS references undefined or not-yet-compiled map '");
                crate::text::string_push_str(&mut out, name.as_str());
                crate::text::string_push_str(&mut out, "'");
                out
            },
            ReplacementCompileError::Context(e) => e.message(),
        }
    }
}

/// The left-hand side can be compiled: a named class is in the table and
/// an element sequence has ordered bounds.
pub open spec fn pattern_bounds_ok(p: PhonPattern) -> bool {
    p matches PhonPattern::Range(elems) ==> seq_bounds_ok(elems@)
}

/// The left-hand side compiles against `table`: a class stored there, any
/// literal, or an element sequence each of whose elements compiles.
pub open spec fn pattern_resolves(p: PhonPattern, table: FstTable) -> bool {
    match p {
        PhonPattern::Class(id) => table.spec_get(id.node@) is Some,
        PhonPattern::Literal(_) => true,
        PhonPattern::Range(elems) => seq_resolves(elems@, table),
    }
}

/// The labels of each character of a literal, interned in order.
pub(crate) fn literal_labels(lit: &str, alpha: &mut PhonruleAlphabet) -> (r: Vec<Label>)
    requires
        old(alpha).wf(),
    ensures
        alphabet_extends(*old(alpha), *final(alpha)),
        r@.len() == lit@.len(),
        chars_known(*final(alpha), lit@),
        r@ == char_labels(*final(alpha), lit@),
{
    proof {
        lemma_extends_refl(*alpha);
    }
    let ghost a0 = *alpha;
    let chars = str_chars(lit);
    let mut out: Vec<Label> = Vec::new();
    let mut i: usize = 0;
    while i < chars.len()
        invariant
            i <= chars@.len(),
            chars@ == lit@,
            out@.len() == i,
            a0.wf(),
            a0 == *old(alpha),
            alphabet_extends(a0, *alpha),
            chars_known(*alpha, lit@.take(i as int)),
            out@ == char_labels(*alpha, lit@.take(i as int)),
        decreases chars@.len() - i,
    {
        let ghost a1 = *alpha;
        let s = char_to_string(chars[i]);
        let l = alpha.intern(s.as_str());
        proof {
            lemma_intern_extends(a1, *alpha, s@, l);
            lemma_extends_trans(a0, a1, *alpha);
            super::class::lemma_char_labels_stable(a1, *alpha, lit@.take(i as int));
        }
        out.push(l);
        proof {
            let t = lit@.take(i + 1);
            assert(t.take(i as int) =~= lit@.take(i as int));
            assert(s@ == seq![t[i as int]]);
            assert forall|k: int| 0 <= k < t.len() implies alpha.spec_lookup(seq![#[trigger] t[k]]) is Some by {
                if k < i {
                    assert(t[k] == lit@.take(i as int)[k]);
                }
            }
            assert(out@ =~= char_labels(*alpha, t)) by {
                assert forall|k: int| 0 <= k < i implies out@[k] == char_labels(*alpha, t)[k] by {
                    assert(t[k] == lit@.take(i as int)[k]);
                }
            }
        }
        i = i + 1;
    }
    proof {
        assert(lit@.take(lit@.len() as int) =~= lit@);
    }
    out
}

/// The acceptor of a literal's characters (no boundary skipping).
fn build_literal_acceptor(lit: &str, alpha: &mut PhonruleAlphabet) -> (f: Fst)
    requires
        old(alpha).wf(),
    ensures
        f.wf(),
        alphabet_extends(*old(alpha), *final(alpha)),
        chars_known(*final(alpha), lit@),
        is_chain_machine(f, char_labels(*final(alpha), lit@), char_labels(*final(alpha), lit@)),
{
    let labels = literal_labels(lit, alpha);
    chain_machine(&labels, &labels)
}

/// Reads nothing and writes a literal's characters.
fn build_output_only_emitter(lit: &str, alpha: &mut PhonruleAlphabet) -> (f: Fst)
    requires
        old(alpha).wf(),
    ensures
        f.wf(),
        alphabet_extends(*old(alpha), *final(alpha)),
        chars_known(*final(alpha), lit@),
        is_chain_machine(f, Seq::new(lit@.len(), |i: int| EPS_LABEL), char_labels(*final(alpha), lit@)),
{
    let labels = literal_labels(lit, alpha);
    let mut eps: Vec<Label> = Vec::new();
    let mut i: usize = 0;
    while i < labels.len()
        invariant
            i <= labels@.len(),
            eps@ == Seq::new(i as nat, |k: int| EPS_LABEL),
        decreases labels@.len() - i,
    {
        eps.push(EPS_LABEL);
        proof {
            assert(eps@ =~= Seq::new((i + 1) as nat, |k: int| EPS_LABEL));
        }
        i = i + 1;
    }
    chain_machine(&eps, &labels)
}

/// Σ, the stream markers and the obligatory brackets.
pub open spec fn marked_labels(alpha: PhonruleAlphabet) -> Seq<Label> {
    alpha.sigma_seq() + seq![
        BOUNDARY_LABEL,
        WORD_START_LABEL,
        WORD_END_LABEL,
        BRACKET_OPEN_OBLIG_LABEL,
        BRACKET_CLOSE_OBLIG_LABEL,
    ]
}

/// Each label paired with itself, or with epsilon when `erase`.
pub open spec fn out_pairs(labels: Seq<Label>, erase: bool) -> Seq<(Label, Label)> {
    labels.map_values(|l: Label| (l, if erase { EPS_LABEL } else { l }))
}

/// Σ, the stream markers and the obligatory brackets, each paired with
/// `out(l)`.
fn all_pairs(alpha: &PhonruleAlphabet, erase: bool) -> (r: Vec<(Label, Label)>)
    ensures
        r@ == out_pairs(marked_labels(*alpha), erase),
{
    let sigma = alpha.sigma();
    let mut r: Vec<(Label, Label)> = Vec::new();
    let mut i: usize = 0;
    while i < sigma.len()
        invariant
            i <= sigma@.len(),
            sigma@ == alpha.sigma_seq(),
            r@ == out_pairs(sigma@.take(i as int), erase),
        decreases sigma@.len() - i,
    {
        r.push((sigma[i], if erase { EPS_LABEL } else { sigma[i] }));
        proof {
            assert(out_pairs(sigma@.take(i + 1), erase) =~= out_pairs(sigma@.take(i as int), erase).push((sigma@[i as int], if erase { EPS_LABEL } else { sigma@[i as int] })));
        }
        i = i + 1;
    }
    proof {
        assert(sigma@.take(sigma@.len() as int) =~= sigma@);
    }
    let markers = vec![
        BOUNDARY_LABEL,
        WORD_START_LABEL,
        WORD_END_LABEL,
        BRACKET_OPEN_OBLIG_LABEL,
        BRACKET_CLOSE_OBLIG_LABEL,
    ];
    let mut j: usize = 0;
    while j < markers.len()
        invariant
            j <= markers@.len(),
            r@ == out_pairs(alpha.sigma_seq() + markers@.take(j as int), erase),
            marked_labels(*alpha) == alpha.sigma_seq() + markers@,
        decreases markers@.len() - j,
    {
        r.push((markers[j], if erase { EPS_LABEL } else { markers[j] }));
        proof {
            assert(alpha.sigma_seq() + markers@.take(j + 1) =~= (alpha.sigma_seq() + markers@.take(j as int)).push(markers@[j as int]));
            assert(out_pairs(alpha.sigma_seq() + markers@.take(j + 1), erase) =~= out_pairs(alpha.sigma_seq() + markers@.take(j as int), erase).push((markers@[j as int], if erase { EPS_LABEL } else { markers@[j as int] })));
        }
        j = j + 1;
    }
    proof {
        assert(markers@.take(markers@.len() as int) =~= markers@);
    }
    r
}

/// Reads anything and writes nothing.
fn build_eraser(alpha: &PhonruleAlphabet) -> (f: Fst)
    ensures
        f.wf(),
        is_loop_machine(f, out_pairs(marked_labels(*alpha), true)),
{
    loop_machine(&all_pairs(alpha, true))
}

/// One identity step on Σ, a stream marker or an obligatory bracket.
fn build_one_outside_step(alpha: &PhonruleAlphabet) -> (f: Fst)
    ensures
        f.wf(),
        is_step_machine(f, out_pairs(marked_labels(*alpha), false)),
{
    step_machine(&all_pairs(alpha, false))
}

/// The input side of an acceptor, with nothing written.
fn make_input_only(acceptor: &Fst, alpha: &PhonruleAlphabet) -> (f: Fst)
    requires
        acceptor.wf(),
    ensures
        f.wf(),
        exists|e: Fst|
            #![trigger is_loop_machine(e, out_pairs(marked_labels(*alpha), true))]
            is_loop_machine(e, out_pairs(marked_labels(*alpha), true)) && forall|x: Seq<Label>, z: Seq<Label>|
                #[trigger] accepts(f, x, z) <==> exists|y: Seq<Label>| accepts(*acceptor, x, y) && accepts(e, y, z),
{
    let eraser = build_eraser(alpha);
    let lhs_sorted = arc_sort_output(acceptor);
    let eraser_sorted = arc_sort_input(&eraser);
    let f = compose(&lhs_sorted, &eraser_sorted);
    proof {
        assert forall|x: Seq<Label>, z: Seq<Label>|
            #[trigger] accepts(f, x, z) <==> exists|y: Seq<Label>| accepts(*acceptor, x, y) && accepts(eraser, y, z) by {
            super::super::laws::lemma_compose_language(lhs_sorted, eraser_sorted, f, x, z);
            assert forall|y: Seq<Label>| accepts(lhs_sorted, x, y) == accepts(*acceptor, x, y) && accepts(eraser_sorted, y, z) == accepts(eraser, y, z) by {
                super::super::laws::lemma_same_shape_accepts(lhs_sorted, *acceptor, x, y);
                super::super::laws::lemma_same_shape_accepts(eraser_sorted, eraser, y, z);
            }
        }
    }
    f
}

/// The acceptor of the left-hand side.
fn compile_lhs(pat: &PhonPattern, alpha: &mut PhonruleAlphabet, class_table: &FstTable) -> (r: Result<Fst, ReplacementCompileError>)
    requires
        old(alpha).wf(),
        class_table.wf(),
        pattern_bounds_ok(*pat),
    ensures
        alphabet_extends(*old(alpha), *final(alpha)),
        r matches Ok(f) ==> f.wf(),
        (r is Err && r->Err_0 is UnknownClass) <==> (pat matches PhonPattern::Class(id)
            && class_table.spec_get(id.node@) is None),
        r matches Err(ReplacementCompileError::UnknownClass { name }) ==> pat matches PhonPattern::Class(id)
            && name@ == id.node@,
        r matches Err(e) ==> (e is UnknownClass || (pat is Range && e is Context)),
        r is Ok <==> pattern_resolves(*pat, *class_table),
        r matches Ok(f) ==> lhs_of(*pat, *class_table, f),
{
    proof {
        lemma_extends_refl(*alpha);
    }
    match pat {
        PhonPattern::Class(ident) => match class_table.get(ident.node.as_str()) {
            Some(f) => {
                proof {
                    class_table.lemma_get_wf(ident.node@);
                }
                let c = copy_fst(f);
                proof {
                    assert forall|x: Seq<Label>, y: Seq<Label>|
                        #[trigger] accepts(c, x, y) <==> accepts(class_table.spec_get(ident.node@)->0, x, y) by {
                        super::super::laws::lemma_same_shape_accepts(c, *f, x, y);
                    }
                }
                Ok(c)
            },
            None => Err(ReplacementCompileError::UnknownClass { name: ident.node.clone() }),
        },
        PhonPattern::Literal(lit) => Ok(build_literal_acceptor(lit.node.as_str(), alpha)),
        PhonPattern::Range(elems) => match compile_pattern_sequence(elems, alpha, class_table) {
            Ok(f) => Ok(f),
            Err(e) => Err(ReplacementCompileError::Context(e)),
        },
    }
}

/// The left-hand side read, the right-hand side written.
fn compile_lhs_to_rhs(lhs_acceptor: &Fst, rhs: &PhonReplacement, alpha: &mut PhonruleAlphabet, map_table: &FstTable) -> (r: Result<Fst, ReplacementCompileError>)
    requires
        old(alpha).wf(),
        lhs_acceptor.wf(),
        map_table.wf(),
    ensures
        alphabet_extends(*old(alpha), *final(alpha)),
        r matches Ok(f) ==> f.wf(),
        r is Err <==> (rhs matches PhonReplacement::MapCall(id) && map_table.spec_get(id.node@) is None),
        r matches Err(e) ==> (rhs matches PhonReplacement::MapCall(id) && e == ReplacementCompileError::UnknownMap { name: id.node }),
        r matches Ok(f) ==> maps_through(*rhs, *map_table, *lhs_acceptor, f),
{
    proof {
        lemma_extends_refl(*alpha);
    }
    match rhs {
        PhonReplacement::Null => Ok(make_input_only(lhs_acceptor, alpha)),
        PhonReplacement::Literal(lit) => {
            let lhs_in = make_input_only(lhs_acceptor, alpha);
            let rhs_out = build_output_only_emitter(lit.node.as_str(), alpha);
            Ok(concat(&lhs_in, &rhs_out))
        },
        PhonReplacement::MapCall(map_ident) => {
            let map_fst = match map_table.get(map_ident.node.as_str()) {
                Some(f) => f,
                None => {
                    return Err(ReplacementCompileError::UnknownMap { name: map_ident.node.clone() });
                },
            };
            proof {
                map_table.lemma_get_wf(map_ident.node@);
            }
            let map_star = closure_star(map_fst);
            let lhs_sorted = arc_sort_output(lhs_acceptor);
            let map_sorted = arc_sort_input(&map_star);
            let f = compose(&lhs_sorted, &map_sorted);
            proof {
                assert forall|x: Seq<Label>, z: Seq<Label>|
                    #[trigger] accepts(f, x, z) <==> exists|y: Seq<Label>| accepts(*lhs_acceptor, x, y) && exists|parts: Seq<(Seq<Label>, Seq<Label>)>|
                        #[trigger] joins(map_table.spec_get(map_ident.node@)->0, parts, y, z) by {
                    super::super::laws::lemma_compose_language(lhs_sorted, map_sorted, f, x, z);
                    assert forall|y: Seq<Label>| accepts(lhs_sorted, x, y) == accepts(*lhs_acceptor, x, y) && accepts(map_sorted, y, z) == (exists|parts: Seq<(Seq<Label>, Seq<Label>)>|
                        #[trigger] joins(*map_fst, parts, y, z)) by {
                        super::super::laws::lemma_same_shape_accepts(lhs_sorted, *lhs_acceptor, x, y);
                        super::super::laws::lemma_same_shape_accepts(map_sorted, map_star, y, z);
                        lemma_star_language(*map_fst, map_star, y, z);
                    }
                }
            }
            Ok(f)
        },
    }
}

/// For a map right-hand side, `lr` maps what the left-hand side's acceptor
/// `lhs` reads, rewritten symbol by symbol by the map.
pub open spec fn maps_through(rhs: PhonReplacement, map_table: FstTable, lhs: Fst, lr: Fst) -> bool {
    rhs matches PhonReplacement::MapCall(m) ==> forall|x: Seq<Label>, z: Seq<Label>|
        #[trigger] accepts(lr, x, z) <==> exists|y: Seq<Label>| accepts(lhs, x, y) && exists|parts: Seq<(Seq<Label>, Seq<Label>)>|
            #[trigger] joins(map_table.spec_get(m.node@)->0, parts, y, z)
}

/// For a class left-hand side, `lhs` maps what the class's machine maps.
pub open spec fn lhs_of(pat: PhonPattern, class_table: FstTable, lhs: Fst) -> bool {
    pat matches PhonPattern::Class(id) ==> forall|x: Seq<Label>, y: Seq<Label>|
        #[trigger] accepts(lhs, x, y) <==> accepts(class_table.spec_get(id.node@)->0, x, y)
}

/// One step of the replacement: a marked label read and written again, or
/// an event: `<[+]>`, a pair that `lr` maps, `<]+>`.
pub open spec fn replacement_step(alpha: PhonruleAlphabet, lr: Fst, x: Seq<Label>, y: Seq<Label>) -> bool {
    ||| exists|l: Label| #[trigger] marked_labels(alpha).contains(l) && x == strip_eps(seq![l]) && y == x
    ||| exists|x1: Seq<Label>, y1: Seq<Label>|
        #[trigger] accepts(lr, x1, y1) && x == seq![BRACKET_OPEN_OBLIG_LABEL] + x1 + seq![BRACKET_CLOSE_OBLIG_LABEL] && y
            == seq![BRACKET_OPEN_OBLIG_LABEL] + y1 + seq![BRACKET_CLOSE_OBLIG_LABEL]
}

/// Each of `parts` is a replacement step.
pub open spec fn all_replacement_steps(alpha: PhonruleAlphabet, lr: Fst, parts: Seq<(Seq<Label>, Seq<Label>)>) -> bool {
    forall|i: int| 0 <= i < parts.len() ==> replacement_step(alpha, lr, #[trigger] parts[i].0, parts[i].1)
}

/// `f` maps exactly the joins of replacement steps over `lr`.
pub open spec fn replaces_with(f: Fst, alpha: PhonruleAlphabet, lr: Fst) -> bool {
    forall|x: Seq<Label>, y: Seq<Label>|
        #[trigger] accepts(f, x, y) <==> exists|parts: Seq<(Seq<Label>, Seq<Label>)>|
            #[trigger] all_replacement_steps(alpha, lr, parts) && flat_in(parts) == x && flat_out(parts) == y
}

/// The replacement transducer of a rule:
/// `(outside-step | <[+]> LHS:RHS <]+>)*`.
///
/// Fails when the left-hand side names an unknown class or its element
/// sequence does not compile, or else when the right-hand side names an
/// unknown map.
pub fn build_replacement_transducer(
    rule: &PhonRewriteRule,
    alpha: &mut PhonruleAlphabet,
    class_table: &FstTable,
    map_table: &FstTable,
) -> (r: Result<Fst, ReplacementCompileError>)
    requires
        old(alpha).wf(),
        class_table.wf(),
        map_table.wf(),
        pattern_bounds_ok(rule.from),
    ensures
        alphabet_extends(*old(alpha), *final(alpha)),
        r matches Ok(f) ==> f.wf(),
        (r is Err && r->Err_0 is UnknownClass) <==> (rule.from matches PhonPattern::Class(id)
            && class_table.spec_get(id.node@) is None),
        r matches Err(ReplacementCompileError::UnknownClass { name }) ==> rule.from matches PhonPattern::Class(id)
            && name@ == id.node@,
        r matches Err(ReplacementCompileError::UnknownMap { name }) ==> rule.to matches PhonReplacement::MapCall(id)
            && map_table.spec_get(id.node@) is None && name == id.node,
        r matches Err(ReplacementCompileError::Context(_)) ==> rule.from is Range && !pattern_resolves(
            rule.from,
            *class_table,
        ),
        r is Ok <==> (pattern_resolves(rule.from, *class_table) && !(rule.to matches PhonReplacement::MapCall(id)
            && map_table.spec_get(id.node@) is None)),
        r matches Ok(f) ==> exists|lhs: Fst, lr: Fst|
            lhs_of(rule.from, *class_table, lhs) && #[trigger] maps_through(rule.to, *map_table, lhs, lr) && replaces_with(
                f,
                *final(alpha),
                lr,
            ),
{
    let ghost a0 = *alpha;
    let lhs_acceptor = compile_lhs(&rule.from, alpha, class_table)?;
    let ghost a1 = *alpha;
    let res = compile_lhs_to_rhs(&lhs_acceptor, &rule.to, alpha, map_table);
    proof {
        lemma_extends_trans(a0, a1, *alpha);
    }
    let lhs_rhs = res?;
    let bracket_open = step_machine(&vec![(BRACKET_OPEN_OBLIG_LABEL, BRACKET_OPEN_OBLIG_LABEL)]);
    let bracket_close = step_machine(&vec![(BRACKET_CLOSE_OBLIG_LABEL, BRACKET_CLOSE_OBLIG_LABEL)]);
    let open_then = concat(&bracket_open, &lhs_rhs);
    let one_event = concat(&open_then, &bracket_close);
    let one_outside = build_one_outside_step(alpha);
    let alternation = union(&one_outside, &one_event);
    let f = closure_star(&alternation);
    proof {
        assert forall|a: Seq<Label>, b: Seq<Label>| #[trigger] accepts(alternation, a, b) <==> replacement_step(*alpha, lhs_rhs, a, b) by {
            lemma_union_language(one_outside, one_event, alternation, a, b);
            let op = out_pairs(marked_labels(*alpha), false);
            if accepts(one_outside, a, b) {
                lemma_step_language(one_outside, op, a, b);
                let k = choose|k: int| 0 <= k < op.len() && a == strip_eps(seq![op[k].0]) && b == strip_eps(seq![#[trigger] op[k].1]);
                let l = marked_labels(*alpha)[k];
                assert(marked_labels(*alpha).contains(l));
            }
            if exists|l: Label| #[trigger] marked_labels(*alpha).contains(l) && a == strip_eps(seq![l]) && b == a {
                let l = choose|l: Label| #[trigger] marked_labels(*alpha).contains(l) && a == strip_eps(seq![l]) && b == a;
                let k = choose|k: int| 0 <= k < marked_labels(*alpha).len() && marked_labels(*alpha)[k] == l;
                lemma_step_accepts(one_outside, op, k);
            }
            lemma_concat_language(open_then, bracket_close, one_event, a, b);
            if accepts(one_event, a, b) {
                let (p1, p2, q1, q2) = choose|p1: Seq<Label>, p2: Seq<Label>, q1: Seq<Label>, q2: Seq<Label>|
                    #![trigger accepts(open_then, p1, q1), accepts(bracket_close, p2, q2)]
                    a == p1 + p2 && b == q1 + q2 && accepts(open_then, p1, q1) && accepts(bracket_close, p2, q2);
                lemma_concat_language(bracket_open, lhs_rhs, open_then, p1, q1);
                let (u1, u2, v1, v2) = choose|u1: Seq<Label>, u2: Seq<Label>, v1: Seq<Label>, v2: Seq<Label>|
                    #![trigger accepts(bracket_open, u1, v1), accepts(lhs_rhs, u2, v2)]
                    p1 == u1 + u2 && q1 == v1 + v2 && accepts(bracket_open, u1, v1) && accepts(lhs_rhs, u2, v2);
                lemma_single_step(bracket_open, BRACKET_OPEN_OBLIG_LABEL, u1, v1);
                lemma_single_step(bracket_close, BRACKET_CLOSE_OBLIG_LABEL, p2, q2);
                assert(accepts(lhs_rhs, u2, v2));
            }
            if exists|x1: Seq<Label>, y1: Seq<Label>|
                #[trigger] accepts(lhs_rhs, x1, y1) && a == seq![BRACKET_OPEN_OBLIG_LABEL] + x1 + seq![BRACKET_CLOSE_OBLIG_LABEL] && b
                    == seq![BRACKET_OPEN_OBLIG_LABEL] + y1 + seq![BRACKET_CLOSE_OBLIG_LABEL] {
                let (x1, y1) = choose|x1: Seq<Label>, y1: Seq<Label>|
                    #[trigger] accepts(lhs_rhs, x1, y1) && a == seq![BRACKET_OPEN_OBLIG_LABEL] + x1 + seq![BRACKET_CLOSE_OBLIG_LABEL] && b
                        == seq![BRACKET_OPEN_OBLIG_LABEL] + y1 + seq![BRACKET_CLOSE_OBLIG_LABEL];
                let o = seq![BRACKET_OPEN_OBLIG_LABEL];
                let c = seq![BRACKET_CLOSE_OBLIG_LABEL];
                lemma_single_step(bracket_open, BRACKET_OPEN_OBLIG_LABEL, o, o);
                lemma_single_step(bracket_close, BRACKET_CLOSE_OBLIG_LABEL, c, c);
                lemma_concat_language(bracket_open, lhs_rhs, open_then, o + x1, o + y1);
                assert(accepts(open_then, o + x1, o + y1));
                assert(accepts(one_event, a, b));
            }
        }
        assert forall|x: Seq<Label>, y: Seq<Label>|
            #[trigger] accepts(f, x, y) <==> exists|parts: Seq<(Seq<Label>, Seq<Label>)>|
                #[trigger] all_replacement_steps(*alpha, lhs_rhs, parts) && flat_in(parts) == x && flat_out(parts) == y by {
            lemma_star_language(alternation, f, x, y);
            if accepts(f, x, y) {
                let parts = choose|parts: Seq<(Seq<Label>, Seq<Label>)>| #[trigger] joins(alternation, parts, x, y);
                assert forall|i: int| 0 <= i < parts.len() implies replacement_step(*alpha, lhs_rhs, #[trigger] parts[i].0, parts[i].1) by {
                    assert(accepts(alternation, parts[i].0, parts[i].1));
                }
                assert(all_replacement_steps(*alpha, lhs_rhs, parts));
            }
            if exists|parts: Seq<(Seq<Label>, Seq<Label>)>|
                #[trigger] all_replacement_steps(*alpha, lhs_rhs, parts) && flat_in(parts) == x && flat_out(parts) == y {
                let parts = choose|parts: Seq<(Seq<Label>, Seq<Label>)>|
                    #[trigger] all_replacement_steps(*alpha, lhs_rhs, parts) && flat_in(parts) == x && flat_out(parts) == y;
                assert forall|i: int| 0 <= i < parts.len() implies accepts(alternation, #[trigger] parts[i].0, parts[i].1) by {
                    assert(replacement_step(*alpha, lhs_rhs, parts[i].0, parts[i].1));
                }
                assert(joins(alternation, parts, x, y));
            }
        }
        assert(replaces_with(f, *alpha, lhs_rhs));
        assert(maps_through(rule.to, *map_table, lhs_acceptor, lhs_rhs));
    }
    Ok(f)
}

} // verus!
