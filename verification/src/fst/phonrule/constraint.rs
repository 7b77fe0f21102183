//! The obligatory-context constraint of the bracketed replacement
//! construction.
//!
//! Over the bracketed alphabet Σ_b (Σ, the stream markers and the
//! obligatory brackets) the constraint accepts exactly the bracketings in
//! which every `L LHS R` occurrence is bracketed (part A, the complement of
//! the unbracketed occurrences) and every bracket pair encloses an `LHS`
//! between `L` and `R` (part B).

use vstd::prelude::*;

use crate::ast::{PhonContextElem, PhonPattern, PhonRewriteRule};
use super::super::alphabet::{
    PhonruleAlphabet, BOUNDARY_LABEL, BRACKET_CLOSE_OBLIG_LABEL, BRACKET_OPEN_OBLIG_LABEL, WORD_END_LABEL,
    WORD_START_LABEL,
};
use super::super::backend::Label;
use super::super::machine::{
    closure_star, complement, concat, copy_fst, epsilon_machine, identity_pairs, intersect, loop_machine, paths,
    step_machine, union, Fst,
};
use super::super::laws::{
    composed, copies_over, flat_in, flat_out, joins, lemma_compose_language, lemma_concat_language,
    lemma_identity_loop_language, lemma_single_step, lemma_star_language,
};
use super::super::machine::accepts;
use super::super::table::FstTable;
use super::leftmost::sigma_hat;
use super::class::{alphabet_extends, lemma_extends_refl, lemma_extends_trans};
use super::context::{
    compile_context_sequence, compile_pattern_sequence, ctx_seq_of, same_machine, seq_bounds_ok, seq_resolves,
    ContextCompileError,
};
use super::class::char_labels;
use super::super::machine::is_chain_machine;
use super::replacement::{pattern_bounds_ok, pattern_resolves};

verus! {

/// Error building the obligatory constraint.
#[derive(Debug, Clone, PartialEq, Eq)]
pub enum ConstraintCompileError {
    /// A context or left-hand-side element did not compile.
    Context(ContextCompileError),
    /// The complement construction exceeded the kernel's state limit.
    Backend(String),
}

impl ConstraintCompileError {
    /// The message shown for this error.
    pub open spec fn msg(&self) -> Seq<char> {
        match self {
            ConstraintCompileError::Context(e) => e.msg(),
            ConstraintCompileError::Backend(s) => "constraint compile backend error: "@ + s@,
        }
    }

    /// The message shown for this error.
    pub fn message(&self) -> (s: String)
        ensures
            s@ == self.msg(),
    {
        match self {
            ConstraintCompileError::Context(e) => e.message(),
            ConstraintCompileError::Backend(s) => {
                let mut out = String::new();
                crate::text::string_push_str(&mut out, "constraint compile backend error: ");
                crate::text::string_push_str(&mut out, s.as_str());
                out
            },
        }
    }
}

/// The rule's context elements have ordered bounds.
pub open spec fn context_bounds_ok(rule: PhonRewriteRule) -> bool {
    rule.context matches Some(ctx) ==> seq_bounds_ok(ctx.left@) && seq_bounds_ok(ctx.right@)
}

/// The rule's left-hand side and both of its contexts compile against
/// `table`.
pub open spec fn rule_resolves(rule: PhonRewriteRule, table: FstTable) -> bool {
    &&& pattern_resolves(rule.from, table)
    &&& (rule.context matches Some(ctx) ==> seq_resolves(ctx.left@, table) && seq_resolves(ctx.right@, table))
}

/// `f` is the acceptor [`compile_constraint_lhs`] builds for `pat`, the
/// alphabet growing from `a0` to `a1`: the table's acceptor of a class,
/// the chain of a literal's characters, or an element sequence's acceptor.
pub open spec fn lhs_acceptor_of(f: Fst, pat: PhonPattern, a0: PhonruleAlphabet, a1: PhonruleAlphabet, table: FstTable) -> bool {
    match pat {
        PhonPattern::Class(n) => table.spec_get(n.node@) is Some && same_machine(f, table.spec_get(n.node@)->0),
        PhonPattern::Literal(lit) => is_chain_machine(f, char_labels(a1, lit.node@), char_labels(a1, lit.node@)),
        PhonPattern::Range(elems) => ctx_seq_of(f, elems@, a0, a1, table),
    }
}

/// The acceptor of the left-hand side (class from the table, literal
/// characters, or element sequence).
pub fn compile_constraint_lhs(pat: &PhonPattern, alpha: &mut PhonruleAlphabet, class_table: &FstTable) -> (r: Result<Fst, ConstraintCompileError>)
    requires
        old(alpha).wf(),
        class_table.wf(),
        pattern_bounds_ok(*pat),
    ensures
        alphabet_extends(*old(alpha), *final(alpha)),
        r matches Ok(f) ==> f.wf(),
        r is Ok <==> pattern_resolves(*pat, *class_table),
        r matches Ok(f) ==> lhs_acceptor_of(f, *pat, *old(alpha), *final(alpha), *class_table),
        r matches Err(e) ==> e is Context,
{
    proof {
        lemma_extends_refl(*alpha);
    }
    match pat {
        PhonPattern::Class(ident) => match class_table.get(ident.node.as_str()) {
            Some(f) => {
                proof {
                    class_table.lemma_get_wf(ident.node@);
                }
                Ok(copy_fst(f))
            },
            None => Err(ConstraintCompileError::Context(ContextCompileError::UnknownClass { name: ident.node.clone() })),
        },
        PhonPattern::Literal(lit) => {
            let labels = super::replacement::literal_labels(lit.node.as_str(), alpha);
            Ok(super::super::machine::chain_machine(&labels, &labels))
        },
        PhonPattern::Range(elems) => match compile_pattern_sequence(elems, alpha, class_table) {
            Ok(f) => Ok(f),
            Err(e) => Err(ConstraintCompileError::Context(e)),
        },
    }
}

/// Σ, both obligatory brackets and the stream markers.
fn sigma_b_labels(alpha: &PhonruleAlphabet) -> (v: Vec<Label>)
    ensures
        v@ == alpha.sigma_seq() + seq![
            BRACKET_OPEN_OBLIG_LABEL,
            BRACKET_CLOSE_OBLIG_LABEL,
            BOUNDARY_LABEL,
            WORD_START_LABEL,
            WORD_END_LABEL,
        ],
{
    let mut v = alpha.sigma();
    v.push(BRACKET_OPEN_OBLIG_LABEL);
    v.push(BRACKET_CLOSE_OBLIG_LABEL);
    v.push(BOUNDARY_LABEL);
    v.push(WORD_START_LABEL);
    v.push(WORD_END_LABEL);
    proof {
        assert(v@ =~= alpha.sigma_seq() + seq![
            BRACKET_OPEN_OBLIG_LABEL,
            BRACKET_CLOSE_OBLIG_LABEL,
            BOUNDARY_LABEL,
            WORD_START_LABEL,
            WORD_END_LABEL,
        ]);
    }
    v
}

/// Identity pairs of the labels, optionally leaving one out.
fn identity_pairs_of(labels: &Vec<Label>, exclude: Option<Label>) -> (r: Vec<(Label, Label)>)
    ensures
        r@ == identity_pairs(labels@.filter(|l: Label| exclude != Some(l))),
{
    let mut r: Vec<(Label, Label)> = Vec::new();
    let mut i: usize = 0;
    while i < labels.len()
        invariant
            i <= labels@.len(),
            r@ == identity_pairs(labels@.take(i as int).filter(|l: Label| exclude != Some(l))),
        decreases labels@.len() - i,
    {
        proof {
            assert(labels@.take(i + 1).drop_last() =~= labels@.take(i as int));
            reveal_with_fuel(Seq::filter, 1);
        }
        let l = labels[i];
        let skip = match exclude {
            Some(x) => x == l,
            None => false,
        };
        if !skip {
            r.push((l, l));
            proof {
                assert(r@ =~= identity_pairs(labels@.take(i + 1).filter(|l: Label| exclude != Some(l))));
            }
        }
        i = i + 1;
    }
    proof {
        assert(labels@.take(labels@.len() as int) =~= labels@);
    }
    r
}

/// Whether `f` accepts the empty string (among its first accepting paths).
fn acceptor_accepts_empty(f: &Fst) -> (b: bool)
    requires
        f.wf(),
    ensures
        b ==> super::super::machine::accepts(*f, Seq::empty(), Seq::empty()),
        super::super::machine::runs_fewer_than(*f, 256) ==> (b <==> super::super::machine::accepts(
            *f,
            Seq::empty(),
            Seq::empty(),
        )),
{
    let ps = paths(f, 256);
    let mut i: usize = 0;
    while i < ps.len()
        invariant
            i <= ps@.len(),
            forall|q: int| 0 <= q < ps@.len() ==> super::super::machine::accepts(*f, (#[trigger] ps@[q]).input@, ps@[q].output@),
            forall|q: int| 0 <= q < i ==> !((#[trigger] ps@[q]).input@.len() == 0 && ps@[q].output@.len() == 0),
        decreases ps@.len() - i,
    {
        if ps[i].input.len() == 0 && ps[i].output.len() == 0 {
            proof {
                assert(ps@[i as int].input@ =~= Seq::<Label>::empty());
                assert(ps@[i as int].output@ =~= Seq::<Label>::empty());
            }
            return true;
        }
        i = i + 1;
    }
    proof {
        if super::super::machine::runs_fewer_than(*f, 256) && super::super::machine::accepts(*f, Seq::empty(), Seq::empty()) {
            let e = Seq::<Label>::empty();
            assert(super::super::machine::accepts(*f, e, e));
            let q = choose|q: int| 0 <= q < ps@.len() && (#[trigger] ps@[q]).input@ == e && ps@[q].output@ == e;
            assert(ps@[q].input@.len() == 0);
        }
    }
    false
}

/// One cell of the constraint's second part: a pair `l` maps, `<[+]>`, a
/// pair `lhs` maps, `<]+>`, a pair `r` maps, then a word over `v` copied.
pub open spec fn constraint_cell(v: Seq<Label>, l: Fst, lhs: Fst, r: Fst, a: Seq<Label>, b: Seq<Label>) -> bool {
    exists|a1: Seq<Label>, b1: Seq<Label>, a2: Seq<Label>, b2: Seq<Label>, a3: Seq<Label>, b3: Seq<Label>, a4: Seq<Label>, b4: Seq<Label>|
        #![trigger accepts(l, a1, b1), accepts(lhs, a2, b2), accepts(r, a3, b3), copies_over(v, a4, b4)]
        accepts(l, a1, b1) && accepts(lhs, a2, b2) && accepts(r, a3, b3) && copies_over(v, a4, b4)
            && a == a1 + seq![BRACKET_OPEN_OBLIG_LABEL] + a2 + seq![BRACKET_CLOSE_OBLIG_LABEL] + a3 + a4
            && b == b1 + seq![BRACKET_OPEN_OBLIG_LABEL] + b2 + seq![BRACKET_CLOSE_OBLIG_LABEL] + b3 + b4
}

/// Each of `parts` is a constraint cell.
pub open spec fn all_constraint_cells(v: Seq<Label>, l: Fst, lhs: Fst, r: Fst, parts: Seq<(Seq<Label>, Seq<Label>)>) -> bool {
    forall|i: int| 0 <= i < parts.len() ==> constraint_cell(v, l, lhs, r, #[trigger] parts[i].0, parts[i].1)
}

/// `x:y` is a word over `v` copied (`x0:y0`), then the cells `parts`.
pub open spec fn constraint_split(
    v: Seq<Label>,
    l: Fst,
    lhs: Fst,
    r: Fst,
    x: Seq<Label>,
    y: Seq<Label>,
    x0: Seq<Label>,
    y0: Seq<Label>,
    parts: Seq<(Seq<Label>, Seq<Label>)>,
) -> bool {
    &&& copies_over(v, x0, y0)
    &&& all_constraint_cells(v, l, lhs, r, parts)
    &&& x == x0 + flat_in(parts)
    &&& y == y0 + flat_out(parts)
}

/// `b` maps exactly a word over `v` copied, followed by any number of
/// cells, each an event `L <[+]> LHS <]+> R` and a copied word: every
/// bracket pair is such an event.
pub open spec fn events_only(b: Fst, v: Seq<Label>, l: Fst, lhs: Fst, r: Fst) -> bool {
    forall|x: Seq<Label>, y: Seq<Label>|
        #[trigger] accepts(b, x, y) <==> exists|x0: Seq<Label>, y0: Seq<Label>, parts: Seq<(Seq<Label>, Seq<Label>)>|
            #[trigger] constraint_split(v, l, lhs, r, x, y, x0, y0, parts)
}

/// `f` maps what `a` then `b` map, where `b` admits only bracket pairs that
/// are events of the rule: the left context `l`, the left-hand side `lhs`
/// and the right context `r` (over Σ and the stream markers `v`).
pub open spec fn constraint_parts(f: Fst, alpha: PhonruleAlphabet, parts: (Fst, Fst, Seq<Label>, Fst, Fst, Fst)) -> bool {
    let (a, b, v, l, lhs, r) = parts;
    &&& sigma_hat(alpha, v)
    &&& events_only(b, v, l, lhs, r)
    &&& composed(f, a, b)
}

/// Build the obligatory constraint of a rule: a first part that admits no
/// unbracketed `L LHS R` occurrence, composed with a second part that
/// admits only bracket pairs that are events `L <[+]> LHS <]+> R`.
///
/// Fails when a context or left-hand-side element does not compile, or
/// when the complement of the unbracketed occurrences exceeds the
/// kernel's determinisation limit.
pub fn build_obligatory_constraint(rule: &PhonRewriteRule, alpha: &mut PhonruleAlphabet, class_table: &FstTable) -> (r: Result<Fst, ConstraintCompileError>)
    requires
        old(alpha).wf(),
        class_table.wf(),
        pattern_bounds_ok(rule.from),
        context_bounds_ok(*rule),
    ensures
        alphabet_extends(*old(alpha), *final(alpha)),
        r matches Ok(f) ==> f.wf(),
        (r is Err && r->Err_0 is Context) <==> !rule_resolves(*rule, *class_table),
        r is Ok <==> rule_resolves(*rule, *class_table),
        r matches Ok(f) ==> exists|parts: (Fst, Fst, Seq<Label>, Fst, Fst, Fst)| #[trigger] constraint_parts(f, *final(alpha), parts),
{
    proof {
        lemma_extends_refl(*alpha);
    }
    let ghost a0 = *alpha;
    let empty: Vec<PhonContextElem> = Vec::new();
    let (left_elems, right_elems): (&Vec<PhonContextElem>, &Vec<PhonContextElem>) = match &rule.context {
        Some(ctx) => (&ctx.left, &ctx.right),
        None => (&empty, &empty),
    };
    let l_res = compile_context_sequence(left_elems, alpha, class_table);
    let ghost a1 = *alpha;
    let l_fst = match l_res {
        Ok(f) => f,
        Err(e) => {
            return Err(ConstraintCompileError::Context(e));
        },
    };
    let r_res = compile_context_sequence(right_elems, alpha, class_table);
    let ghost a2 = *alpha;
    proof {
        lemma_extends_trans(a0, a1, a2);
    }
    let r_fst = match r_res {
        Ok(f) => f,
        Err(e) => {
            return Err(ConstraintCompileError::Context(e));
        },
    };
    let lhs_res = compile_constraint_lhs(&rule.from, alpha, class_table);
    proof {
        lemma_extends_trans(a0, a2, *alpha);
    }
    let lhs_fst = lhs_res?;
    let l_accepts_empty = acceptor_accepts_empty(&l_fst);
    let r_accepts_empty = acceptor_accepts_empty(&r_fst);
    let sigma_b = sigma_b_labels(alpha);
    let sigma_b_star = loop_machine(&identity_pairs_of(&sigma_b, None));
    let sigma_no_open = step_machine(&identity_pairs_of(&sigma_b, Some(BRACKET_OPEN_OBLIG_LABEL)));
    let sigma_no_close = step_machine(&identity_pairs_of(&sigma_b, Some(BRACKET_CLOSE_OBLIG_LABEL)));
    let open_arc = step_machine(&vec![(BRACKET_OPEN_OBLIG_LABEL, BRACKET_OPEN_OBLIG_LABEL)]);
    let close_arc = step_machine(&vec![(BRACKET_CLOSE_OBLIG_LABEL, BRACKET_CLOSE_OBLIG_LABEL)]);
    // Part A: no unbracketed L LHS R occurrence.
    let left_prefix = if l_accepts_empty {
        union(&epsilon_machine(), &concat(&sigma_b_star, &sigma_no_open))
    } else {
        concat(&sigma_b_star, &l_fst)
    };
    let right_suffix = if r_accepts_empty {
        union(&epsilon_machine(), &concat(&sigma_no_close, &sigma_b_star))
    } else {
        concat(&r_fst, &sigma_b_star)
    };
    let bad_a_left = concat(&concat(&concat(&left_prefix, &lhs_fst), &r_fst), &sigma_b_star);
    let bad_a_right = concat(&concat(&concat(&sigma_b_star, &l_fst), &lhs_fst), &right_suffix);
    let bad_a = union(&bad_a_left, &bad_a_right);
    let constraint_a = match complement(&bad_a, sigma_b.as_slice()) {
        Ok(f) => f,
        Err(_) => {
            return Err(ConstraintCompileError::Backend(crate::text::str_to_owned("complement of the unbracketed occurrences failed")));
        },
    };
    // Part B: every bracket pair is an L <[+]> LHS <]+> R event.
    let sigma_only = alpha.sigma();
    let mut plain = identity_pairs_of(&sigma_only, None);
    plain.push((BOUNDARY_LABEL, BOUNDARY_LABEL));
    plain.push((WORD_START_LABEL, WORD_START_LABEL));
    plain.push((WORD_END_LABEL, WORD_END_LABEL));
    let sigma_only_star = loop_machine(&plain);
    let e1 = concat(&l_fst, &open_arc);
    let e2 = concat(&e1, &lhs_fst);
    let e3 = concat(&e2, &close_arc);
    let event = concat(&e3, &r_fst);
    let cell = concat(&event, &sigma_only_star);
    let cells = closure_star(&cell);
    let constraint_b = concat(&sigma_only_star, &cells);
    let f = intersect(&constraint_a, &constraint_b);
    proof {
        let ghost so = sigma_only@;
        let pred = |l: Label| None::<Label> != Some(l);
        let v = so.filter(pred) + seq![BOUNDARY_LABEL, WORD_START_LABEL, WORD_END_LABEL];
        assert(plain@ =~= identity_pairs(v));
        so.filter_lemma(pred);
        assert forall|l: Label| #[trigger] v.contains(l) <==> (alpha.sigma_seq().contains(l) || l == BOUNDARY_LABEL
            || l == WORD_START_LABEL || l == WORD_END_LABEL) by {
            let fl = so.filter(pred);
            if v.contains(l) {
                let k = choose|k: int| 0 <= k < v.len() && v[k] == l;
                if k < fl.len() {
                    assert(fl[k] == l);
                    assert(fl.contains(l));
                    so.lemma_filter_contains_rev(pred, l);
                }
            }
            if so.contains(l) {
                let k = choose|k: int| 0 <= k < so.len() && so[k] == l;
                assert(fl.contains(so[k]));
                let j = choose|j: int| 0 <= j < fl.len() && fl[j] == l;
                assert(v[j] == l);
            }
            if l == BOUNDARY_LABEL {
                assert(v[fl.len() as int] == l);
            }
            if l == WORD_START_LABEL {
                assert(v[fl.len() + 1int] == l);
            }
            if l == WORD_END_LABEL {
                assert(v[fl.len() + 2int] == l);
            }
        }
        assert(sigma_hat(*alpha, v));
        let o = seq![BRACKET_OPEN_OBLIG_LABEL];
        let c = seq![BRACKET_CLOSE_OBLIG_LABEL];
        assert forall|a: Seq<Label>, b: Seq<Label>| #[trigger] accepts(cell, a, b) <==> constraint_cell(v, l_fst, lhs_fst, r_fst, a, b) by {
            lemma_concat_language(event, sigma_only_star, cell, a, b);
            if accepts(cell, a, b) {
                let (p1, a4, q1, b4) = choose|p1: Seq<Label>, p2: Seq<Label>, q1: Seq<Label>, q2: Seq<Label>|
                    #![trigger accepts(event, p1, q1), accepts(sigma_only_star, p2, q2)]
                    a == p1 + p2 && b == q1 + q2 && accepts(event, p1, q1) && accepts(sigma_only_star, p2, q2);
                lemma_identity_loop_language(sigma_only_star, v, a4, b4);
                lemma_concat_language(e3, r_fst, event, p1, q1);
                let (t3, a3, u3, b3) = choose|p1x: Seq<Label>, p2: Seq<Label>, q1x: Seq<Label>, q2: Seq<Label>|
                    #![trigger accepts(e3, p1x, q1x), accepts(r_fst, p2, q2)]
                    p1 == p1x + p2 && q1 == q1x + q2 && accepts(e3, p1x, q1x) && accepts(r_fst, p2, q2);
                lemma_concat_language(e2, close_arc, e3, t3, u3);
                let (t2, c1, u2, c2) = choose|p1x: Seq<Label>, p2: Seq<Label>, q1x: Seq<Label>, q2: Seq<Label>|
                    #![trigger accepts(e2, p1x, q1x), accepts(close_arc, p2, q2)]
                    t3 == p1x + p2 && u3 == q1x + q2 && accepts(e2, p1x, q1x) && accepts(close_arc, p2, q2);
                lemma_single_step(close_arc, BRACKET_CLOSE_OBLIG_LABEL, c1, c2);
                lemma_concat_language(e1, lhs_fst, e2, t2, u2);
                let (t1, a2, u1, b2) = choose|p1x: Seq<Label>, p2: Seq<Label>, q1x: Seq<Label>, q2: Seq<Label>|
                    #![trigger accepts(e1, p1x, q1x), accepts(lhs_fst, p2, q2)]
                    t2 == p1x + p2 && u2 == q1x + q2 && accepts(e1, p1x, q1x) && accepts(lhs_fst, p2, q2);
                lemma_concat_language(l_fst, open_arc, e1, t1, u1);
                let (a1, o1, b1, o2) = choose|p1x: Seq<Label>, p2: Seq<Label>, q1x: Seq<Label>, q2: Seq<Label>|
                    #![trigger accepts(l_fst, p1x, q1x), accepts(open_arc, p2, q2)]
                    t1 == p1x + p2 && u1 == q1x + q2 && accepts(l_fst, p1x, q1x) && accepts(open_arc, p2, q2);
                lemma_single_step(open_arc, BRACKET_OPEN_OBLIG_LABEL, o1, o2);
                assert(a == a1 + o + a2 + c + a3 + a4);
                assert(b == b1 + o + b2 + c + b3 + b4);
                assert(accepts(l_fst, a1, b1) && accepts(lhs_fst, a2, b2) && accepts(r_fst, a3, b3) && copies_over(v, a4, b4));
            }
            if constraint_cell(v, l_fst, lhs_fst, r_fst, a, b) {
                let (a1, b1, a2, b2, a3, b3, a4, b4) = choose|a1: Seq<Label>, b1: Seq<Label>, a2: Seq<Label>, b2: Seq<Label>, a3: Seq<Label>, b3: Seq<Label>, a4: Seq<Label>, b4: Seq<Label>|
                    #![trigger accepts(l_fst, a1, b1), accepts(lhs_fst, a2, b2), accepts(r_fst, a3, b3), copies_over(v, a4, b4)]
                    accepts(l_fst, a1, b1) && accepts(lhs_fst, a2, b2) && accepts(r_fst, a3, b3) && copies_over(v, a4, b4)
                        && a == a1 + o + a2 + c + a3 + a4 && b == b1 + o + b2 + c + b3 + b4;
                lemma_single_step(open_arc, BRACKET_OPEN_OBLIG_LABEL, o, o);
                lemma_single_step(close_arc, BRACKET_CLOSE_OBLIG_LABEL, c, c);
                lemma_concat_language(l_fst, open_arc, e1, a1 + o, b1 + o);
                assert(accepts(e1, a1 + o, b1 + o));
                lemma_concat_language(e1, lhs_fst, e2, a1 + o + a2, b1 + o + b2);
                assert(accepts(e2, a1 + o + a2, b1 + o + b2));
                lemma_concat_language(e2, close_arc, e3, a1 + o + a2 + c, b1 + o + b2 + c);
                assert(accepts(e3, a1 + o + a2 + c, b1 + o + b2 + c));
                lemma_concat_language(e3, r_fst, event, a1 + o + a2 + c + a3, b1 + o + b2 + c + b3);
                assert(accepts(event, a1 + o + a2 + c + a3, b1 + o + b2 + c + b3));
                lemma_identity_loop_language(sigma_only_star, v, a4, b4);
                assert(accepts(sigma_only_star, a4, b4));
            }
        }
        assert forall|x: Seq<Label>, y: Seq<Label>|
            #[trigger] accepts(constraint_b, x, y) <==> exists|x0: Seq<Label>, y0: Seq<Label>, parts: Seq<(Seq<Label>, Seq<Label>)>|
                #[trigger] constraint_split(v, l_fst, lhs_fst, r_fst, x, y, x0, y0, parts) by {
            lemma_concat_language(sigma_only_star, cells, constraint_b, x, y);
            if accepts(constraint_b, x, y) {
                let (x0, x1, y0, y1) = choose|x0: Seq<Label>, x1: Seq<Label>, y0: Seq<Label>, y1: Seq<Label>|
                    #![trigger accepts(sigma_only_star, x0, y0), accepts(cells, x1, y1)]
                    x == x0 + x1 && y == y0 + y1 && accepts(sigma_only_star, x0, y0) && accepts(cells, x1, y1);
                lemma_identity_loop_language(sigma_only_star, v, x0, y0);
                lemma_star_language(cell, cells, x1, y1);
                let parts = choose|parts: Seq<(Seq<Label>, Seq<Label>)>| #[trigger] joins(cell, parts, x1, y1);
                assert forall|i: int| 0 <= i < parts.len() implies constraint_cell(v, l_fst, lhs_fst, r_fst, #[trigger] parts[i].0, parts[i].1) by {
                    assert(accepts(cell, parts[i].0, parts[i].1));
                }
                assert(constraint_split(v, l_fst, lhs_fst, r_fst, x, y, x0, y0, parts));
            }
            if exists|x0: Seq<Label>, y0: Seq<Label>, parts: Seq<(Seq<Label>, Seq<Label>)>|
                #[trigger] constraint_split(v, l_fst, lhs_fst, r_fst, x, y, x0, y0, parts) {
                let (x0, y0, parts) = choose|x0: Seq<Label>, y0: Seq<Label>, parts: Seq<(Seq<Label>, Seq<Label>)>|
                    #[trigger] constraint_split(v, l_fst, lhs_fst, r_fst, x, y, x0, y0, parts);
                lemma_identity_loop_language(sigma_only_star, v, x0, y0);
                assert forall|i: int| 0 <= i < parts.len() implies accepts(cell, #[trigger] parts[i].0, parts[i].1) by {
                    assert(constraint_cell(v, l_fst, lhs_fst, r_fst, parts[i].0, parts[i].1));
                }
                assert(joins(cell, parts, flat_in(parts), flat_out(parts)));
                lemma_star_language(cell, cells, flat_in(parts), flat_out(parts));
                assert(accepts(cells, flat_in(parts), flat_out(parts)));
                assert(accepts(sigma_only_star, x0, y0));
            }
        }
        assert(events_only(constraint_b, v, l_fst, lhs_fst, r_fst));
        assert forall|x: Seq<Label>, z: Seq<Label>|
            #[trigger] accepts(f, x, z) <==> exists|y: Seq<Label>| accepts(constraint_a, x, y) && accepts(constraint_b, y, z) by {
            lemma_compose_language(constraint_a, constraint_b, f, x, z);
        }
        assert(constraint_parts(f, *alpha, (constraint_a, constraint_b, v, l_fst, lhs_fst, r_fst)));
    }
    Ok(f)
}

} // verus!
