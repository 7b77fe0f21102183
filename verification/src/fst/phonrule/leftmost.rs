//! The longest-leftmost filter on the output side of the replacement.
//!
//! Over Σ̂ (Σ and the stream markers) with the obligatory brackets, the
//! filter accepts `Σ̂* (<[+]> RHS <]+> Σ̂*)*`: every bracket pair encloses
//! exactly one right-hand-side string.

use vstd::prelude::*;

use crate::ast::{PhonPattern, PhonReplacement, PhonRewriteRule};
use crate::text::str_chars;
use super::super::alphabet::{
    PhonruleAlphabet, BOUNDARY_LABEL, BRACKET_CLOSE_OBLIG_LABEL, BRACKET_OPEN_OBLIG_LABEL, WORD_END_LABEL,
    WORD_START_LABEL,
};
use super::super::backend::Label;
use super::super::laws::{
    copies_over, flat_in, flat_out, joins, lemma_concat_language, lemma_identity_loop_language, lemma_single_step,
    lemma_star_language,
};
use super::super::machine::{accepts, chain_machine, closure_star, concat, epsilon_machine, identity_pairs, is_loop_machine, loop_machine, paths, step_machine, Fst};
use super::super::table::FstTable;
use super::class::{alphabet_extends, contains_label, lemma_contains_push, lemma_extends_refl, lemma_extends_trans, lemma_intern_extends};

verus! {

/// Error building the longest-leftmost filter.
#[derive(Debug, Clone, PartialEq, Eq)]
pub enum LeftmostCompileError {
    /// The right-hand side names a map that is not in the map table.
    UnknownMap { name: String },
    /// A map right-hand side with a left-hand side of more than one symbol.
    MapWithMultiSymbolLhs,
    /// A left-hand side the filter cannot handle.
    UnsupportedLhsShape(String),
}

impl LeftmostCompileError {
    /// The message shown for this error.
    pub open spec fn msg(&self) -> Seq<char> {
        match self {
            LeftmostCompileError::UnknownMap { name } => "longest-leftmost filter: RHS references undefined or not-yet-compiled map '"@ + name@ + "'"@,
            LeftmostCompileError::MapWithMultiSymbolLhs => "longest-leftmost filter: a map replacement with a multi-symbol LHS is not yet supported"@,
            LeftmostCompileError::UnsupportedLhsShape(s) => "longest-leftmost filter: unsupported LHS shape: "@ + s@,
        }
    }

    /// The message shown for this error.
    pub fn message(&self) -> (s: String)
        ensures
            s@ == self.msg(),
    {
        match self {
            LeftmostCompileError::UnknownMap { name } => {
                let mut out = String::new();
                crate::text::string_push_str(&mut out, "longest-leftmost filter: RHS references undefined or not-yet-compiled map '");
                crate::text::string_push_str(&mut out, name.as_str());
                crate::text::string_push_str(&mut out, "'");
                out
            },
            LeftmostCompileError::MapWithMultiSymbolLhs => crate::text::str_to_owned("longest-leftmost filter: a map replacement with a multi-symbol LHS is not yet supported"),
            LeftmostCompileError::UnsupportedLhsShape(s) => {
                let mut out = String::new();
                crate::text::string_push_str(&mut out, "longest-leftmost filter: unsupported LHS shape: ");
                crate::text::string_push_str(&mut out, s.as_str());
                out
            },
        }
    }
}

/// The left-hand side matches exactly one symbol: a one-character
/// literal, a class, or a one-element sequence.
pub open spec fn single_symbol_lhs(p: PhonPattern) -> bool {
    match p {
        PhonPattern::Literal(lit) => lit.node@.len() == 1,
        PhonPattern::Class(_) => true,
        PhonPattern::Range(elems) => elems@.len() == 1,
    }
}

/// Whether the left-hand side matches exactly one symbol.
fn is_single_symbol_lhs(pat: &PhonPattern) -> (b: bool)
    ensures
        b == single_symbol_lhs(*pat),
{
    match pat {
        PhonPattern::Literal(lit) => str_chars(lit.node.as_str()).len() == 1,
        PhonPattern::Class(_) => true,
        PhonPattern::Range(elems) => elems.len() == 1,
    }
}

/// Output labels the map writes, restricted to paths reading `restrict`
/// when given (bounded enumeration), each once.
fn harvest_map_outputs(map_fst: &Fst, restrict: Option<Label>) -> (outs: Vec<Label>)
    requires
        map_fst.wf(),
    ensures
        outs@.no_duplicates(),
        forall|k: int| 0 <= k < outs@.len() ==> #[trigger] map_writes_first(*map_fst, restrict, outs@[k]),
        super::super::machine::runs_fewer_than(*map_fst, 4096) ==> forall|l: Label|
            #[trigger] map_writes_first(*map_fst, restrict, l) ==> outs@.contains(l),
{
    let ps = paths(map_fst, 4096);
    let mut outs: Vec<Label> = Vec::new();
    let mut i: usize = 0;
    while i < ps.len()
        invariant
            i <= ps@.len(),
            forall|q: int| 0 <= q < ps@.len() ==> accepts(*map_fst, (#[trigger] ps@[q]).input@, ps@[q].output@),
            outs@.no_duplicates(),
            forall|k: int| 0 <= k < outs@.len() ==> #[trigger] map_writes_first(*map_fst, restrict, outs@[k]),
            forall|q: int|
                0 <= q < i && (#[trigger] ps@[q]).input@.len() > 0 && ps@[q].output@.len() > 0 && (restrict matches Some(req)
                    ==> ps@[q].input@[0] == req) ==> outs@.contains(ps@[q].output@[0]),
        decreases ps@.len() - i,
    {
        let ghost o_start = outs@;
        if ps[i].input.len() > 0 && ps[i].output.len() > 0 {
            let in_l = ps[i].input[0];
            let out_l = ps[i].output[0];
            let keep = match restrict {
                Some(req) => in_l == req,
                None => true,
            };
            let have = contains_label(&outs, out_l);
            if keep && !have {
                let ghost o0 = outs@;
                proof {
                    let x = ps@[i as int].input@;
                    let y = ps@[i as int].output@;
                    assert(accepts(*map_fst, x, y));
                    assert(map_writes_first(*map_fst, restrict, out_l));
                }
                outs.push(out_l);
                proof {
                    assert(outs@[outs@.len() - 1] == out_l);
                    assert(outs@.contains(out_l));
                    assert forall|k: int| 0 <= k < outs@.len() implies #[trigger] map_writes_first(*map_fst, restrict, outs@[k]) by {
                        if k < o0.len() {
                            assert(outs@[k] == o0[k]);
                        }
                    }
                    assert forall|a: int, b: int| 0 <= a < b < outs@.len() implies outs@[a] != outs@[b] by {
                        if b == o0.len() {
                            assert(o0.contains(outs@[a]));
                        }
                    }
                }
            }
        }
        proof {
            assert forall|q: int|
                0 <= q < i + 1 && (#[trigger] ps@[q]).input@.len() > 0 && ps@[q].output@.len() > 0 && (restrict matches Some(req)
                    ==> ps@[q].input@[0] == req) implies outs@.contains(ps@[q].output@[0]) by {
                if q < i {
                    assert(o_start.contains(ps@[q].output@[0]));
                    let t = choose|t: int| 0 <= t < o_start.len() && o_start[t] == ps@[q].output@[0];
                    assert(outs@[t] == o_start[t]);
                } else {
                    assert(ps@[q].input@[0] == ps[i as int].input@[0]);
                }
            }
        }
        i = i + 1;
    }
    proof {
        if super::super::machine::runs_fewer_than(*map_fst, 4096) {
            assert forall|l: Label| #[trigger] map_writes_first(*map_fst, restrict, l) implies outs@.contains(l) by {
                let (x, y) = choose|x: Seq<Label>, y: Seq<Label>|
                    #[trigger] accepts(*map_fst, x, y) && x.len() > 0 && y.len() > 0 && y[0] == l && (restrict matches Some(req)
                        ==> x[0] == req);
                let q = choose|q: int| 0 <= q < ps@.len() && (#[trigger] ps@[q]).input@ == x && ps@[q].output@ == y;
                assert(ps@[q].input@.len() > 0 && ps@[q].output@.len() > 0);
            }
        }
    }
    outs
}

/// Some accepted path (reading `restrict` first, when given) writes `l`
/// first.
pub open spec fn map_writes_first(map: Fst, restrict: Option<Label>, l: Label) -> bool {
    exists|x: Seq<Label>, y: Seq<Label>|
        #[trigger] accepts(map, x, y) && x.len() > 0 && y.len() > 0 && y[0] == l && (restrict matches Some(req)
            ==> x[0] == req)
}

/// The acceptor of the rule's right-hand side.
fn build_rhs_acceptor(rule: &PhonRewriteRule, alpha: &mut PhonruleAlphabet, map_table: &FstTable) -> (r: Result<Fst, LeftmostCompileError>)
    requires
        old(alpha).wf(),
        map_table.wf(),
    ensures
        alphabet_extends(*old(alpha), *final(alpha)),
        r matches Ok(f) ==> f.wf(),
        match rule.to {
            PhonReplacement::MapCall(id) => if !single_symbol_lhs(rule.from) {
                r == Err::<Fst, LeftmostCompileError>(LeftmostCompileError::MapWithMultiSymbolLhs)
            } else if map_table.spec_get(id.node@) is None {
                r == Err::<Fst, LeftmostCompileError>(LeftmostCompileError::UnknownMap { name: id.node })
            } else {
                r is Ok
            },
            _ => r is Ok,
        },
{
    proof {
        lemma_extends_refl(*alpha);
    }
    match &rule.to {
        PhonReplacement::Literal(lit) => {
            let labels = super::replacement::literal_labels(lit.node.as_str(), alpha);
            Ok(chain_machine(&labels, &labels))
        },
        PhonReplacement::Null => Ok(epsilon_machine()),
        PhonReplacement::MapCall(map_ident) => {
            if !is_single_symbol_lhs(&rule.from) {
                return Err(LeftmostCompileError::MapWithMultiSymbolLhs);
            }
            let map_fst = match map_table.get(map_ident.node.as_str()) {
                Some(f) => f,
                None => {
                    return Err(LeftmostCompileError::UnknownMap { name: map_ident.node.clone() });
                },
            };
            proof {
                map_table.lemma_get_wf(map_ident.node@);
            }
            let restrict: Option<Label> = match &rule.from {
                PhonPattern::Literal(lit) => {
                    let ghost a0 = *alpha;
                    let l = alpha.intern(lit.node.as_str());
                    proof {
                        lemma_intern_extends(a0, *alpha, lit.node@, l);
                    }
                    Some(l)
                },
                _ => None,
            };
            let outputs = harvest_map_outputs(map_fst, restrict);
            let mut pairs: Vec<(Label, Label)> = Vec::new();
            let mut i: usize = 0;
            while i < outputs.len()
                invariant
                    i <= outputs@.len(),
                decreases outputs@.len() - i,
            {
                pairs.push((outputs[i], outputs[i]));
                i = i + 1;
            }
            Ok(step_machine(&pairs))
        },
    }
}

/// `Σ̂*`: self-loops on Σ and the stream markers.
fn build_sigma_hat_star(alpha: &PhonruleAlphabet) -> (f: Fst)
    ensures
        f.wf(),
        exists|v: Seq<Label>|
            #![trigger is_loop_machine(f, identity_pairs(v))]
            {
                &&& is_loop_machine(f, identity_pairs(v))
                &&& v.no_duplicates()
                &&& forall|l: Label| #[trigger] v.contains(l) <==> (alpha.sigma_seq().contains(l) || l == BOUNDARY_LABEL
                    || l == WORD_START_LABEL || l == WORD_END_LABEL)
            },
{
    let sigma = alpha.sigma();
    let mut seen: Vec<Label> = Vec::new();
    let mut pairs: Vec<(Label, Label)> = Vec::new();
    let mut i: usize = 0;
    while i < sigma.len()
        invariant
            i <= sigma@.len(),
            sigma@ == alpha.sigma_seq(),
            pairs@ == identity_pairs(seen@),
            seen@.no_duplicates(),
            forall|l: Label| #[trigger] seen@.contains(l) <==> sigma@.take(i as int).contains(l),
        decreases sigma@.len() - i,
    {
        let ghost s0 = seen@;
        proof {
            assert(sigma@.take(i + 1) =~= sigma@.take(i as int).push(sigma@[i as int]));
            assert forall|l: Label| sigma@.take(i + 1).contains(l) == (sigma@.take(i as int).contains(l) || sigma@[i as int] == l) by {
                lemma_contains_push(sigma@.take(i as int), sigma@[i as int], l);
            }
        }
        let had = contains_label(&seen, sigma[i]);
        if !had {
            seen.push(sigma[i]);
            pairs.push((sigma[i], sigma[i]));
            proof {
                assert(pairs@ =~= identity_pairs(seen@));
                assert forall|l: Label| seen@.contains(l) == (s0.contains(l) || sigma@[i as int] == l) by {
                    lemma_contains_push(s0, sigma@[i as int], l);
                }
                assert forall|a: int, b: int| 0 <= a < b < seen@.len() implies seen@[a] != seen@[b] by {
                    if b == seen@.len() - 1 {
                        assert(s0.contains(seen@[a]) || a == b);
                    }
                }
            }
        }
        proof {
            assert forall|l: Label| #[trigger] seen@.contains(l) <==> sigma@.take(i + 1).contains(l) by {
                lemma_contains_push(sigma@.take(i as int), sigma@[i as int], l);
                if !had {
                    lemma_contains_push(s0, sigma@[i as int], l);
                }
            }
        }
        i = i + 1;
    }
    proof {
        assert(sigma@.take(sigma@.len() as int) =~= sigma@);
    }
    let markers = vec![BOUNDARY_LABEL, WORD_START_LABEL, WORD_END_LABEL];
    let mut j: usize = 0;
    while j < markers.len()
        invariant
            j <= markers@.len(),
            markers@ == seq![BOUNDARY_LABEL, WORD_START_LABEL, WORD_END_LABEL],
            pairs@ == identity_pairs(seen@),
            seen@.no_duplicates(),
            forall|l: Label| #[trigger] seen@.contains(l) <==> (alpha.sigma_seq().contains(l) || markers@.take(j as int).contains(l)),
        decreases markers@.len() - j,
    {
        let ghost s0 = seen@;
        proof {
            assert(markers@.take(j + 1) =~= markers@.take(j as int).push(markers@[j as int]));
            assert forall|l: Label| markers@.take(j + 1).contains(l) == (markers@.take(j as int).contains(l) || markers@[j as int] == l) by {
                lemma_contains_push(markers@.take(j as int), markers@[j as int], l);
            }
        }
        let had = contains_label(&seen, markers[j]);
        if !had {
            seen.push(markers[j]);
            pairs.push((markers[j], markers[j]));
            proof {
                assert(pairs@ =~= identity_pairs(seen@));
                assert forall|l: Label| seen@.contains(l) == (s0.contains(l) || markers@[j as int] == l) by {
                    lemma_contains_push(s0, markers@[j as int], l);
                }
                assert forall|a: int, b: int| 0 <= a < b < seen@.len() implies seen@[a] != seen@[b] by {
                    if b == seen@.len() - 1 {
                        assert(s0.contains(seen@[a]) || a == b);
                    }
                }
            }
        }
        proof {
            assert forall|l: Label| #[trigger] seen@.contains(l) <==> (alpha.sigma_seq().contains(l) || markers@.take(j + 1).contains(l)) by {
                lemma_contains_push(markers@.take(j as int), markers@[j as int], l);
                if !had {
                    lemma_contains_push(s0, markers@[j as int], l);
                }
            }
        }
        j = j + 1;
    }
    proof {
        assert(markers@.take(markers@.len() as int) =~= markers@);
        assert forall|l: Label| #[trigger] seen@.contains(l) <==> (alpha.sigma_seq().contains(l) || l == BOUNDARY_LABEL
            || l == WORD_START_LABEL || l == WORD_END_LABEL) by {
            if l == BOUNDARY_LABEL { assert(markers@[0] == l); }
            if l == WORD_START_LABEL { assert(markers@[1] == l); }
            if l == WORD_END_LABEL { assert(markers@[2] == l); }
        }
    }
    let f = loop_machine(&pairs);
    proof {
        assert(is_loop_machine(f, identity_pairs(seen@)));
    }
    f
}

/// One cell of the filter: `<[+]>`, a pair that `rhs` maps, `<]+>`, then
/// a word over `v` copied unchanged.
pub open spec fn filter_cell(v: Seq<Label>, rhs: Fst, a: Seq<Label>, b: Seq<Label>) -> bool {
    exists|a1: Seq<Label>, b1: Seq<Label>, a2: Seq<Label>, b2: Seq<Label>|
        #![trigger accepts(rhs, a1, b1), copies_over(v, a2, b2)]
        accepts(rhs, a1, b1) && copies_over(v, a2, b2) && a == seq![BRACKET_OPEN_OBLIG_LABEL] + a1 + seq![
            BRACKET_CLOSE_OBLIG_LABEL,
        ] + a2 && b == seq![BRACKET_OPEN_OBLIG_LABEL] + b1 + seq![BRACKET_CLOSE_OBLIG_LABEL] + b2
}

/// Each of `parts` is a filter cell.
pub open spec fn all_filter_cells(v: Seq<Label>, rhs: Fst, parts: Seq<(Seq<Label>, Seq<Label>)>) -> bool {
    forall|i: int| 0 <= i < parts.len() ==> filter_cell(v, rhs, #[trigger] parts[i].0, parts[i].1)
}

/// `x:y` is a word over `v` copied (`x0:y0`), then the cells `parts`.
pub open spec fn filter_split(
    v: Seq<Label>,
    rhs: Fst,
    x: Seq<Label>,
    y: Seq<Label>,
    x0: Seq<Label>,
    y0: Seq<Label>,
    parts: Seq<(Seq<Label>, Seq<Label>)>,
) -> bool {
    &&& copies_over(v, x0, y0)
    &&& all_filter_cells(v, rhs, parts)
    &&& x == x0 + flat_in(parts)
    &&& y == y0 + flat_out(parts)
}

/// `f` maps exactly a word over `v` copied, followed by any number of
/// cells whose bracketed part `rhs` maps.
pub open spec fn filters_with(f: Fst, v: Seq<Label>, rhs: Fst) -> bool {
    forall|x: Seq<Label>, y: Seq<Label>|
        #[trigger] accepts(f, x, y) <==> exists|x0: Seq<Label>, y0: Seq<Label>, parts: Seq<(Seq<Label>, Seq<Label>)>|
            #[trigger] filter_split(v, rhs, x, y, x0, y0, parts)
}

/// Σ and the stream markers.
pub open spec fn sigma_hat(alpha: PhonruleAlphabet, v: Seq<Label>) -> bool {
    forall|l: Label| #[trigger] v.contains(l) <==> (alpha.sigma_seq().contains(l) || l == BOUNDARY_LABEL || l == WORD_START_LABEL
        || l == WORD_END_LABEL)
}

/// Build the longest-leftmost filter of a rule.
///
/// A map right-hand side needs a one-symbol left-hand side
/// (`MapWithMultiSymbolLhs` otherwise) and a map in the table
/// (`UnknownMap` otherwise); every other rule succeeds.
pub fn build_longest_leftmost_filter(
    rule: &PhonRewriteRule,
    alpha: &mut PhonruleAlphabet,
    class_table: &FstTable,
    map_table: &FstTable,
) -> (r: Result<Fst, LeftmostCompileError>)
    requires
        old(alpha).wf(),
        map_table.wf(),
    ensures
        alphabet_extends(*old(alpha), *final(alpha)),
        r matches Ok(f) ==> f.wf(),
        match rule.to {
            PhonReplacement::MapCall(id) => if !single_symbol_lhs(rule.from) {
                r == Err::<Fst, LeftmostCompileError>(LeftmostCompileError::MapWithMultiSymbolLhs)
            } else if map_table.spec_get(id.node@) is None {
                r == Err::<Fst, LeftmostCompileError>(LeftmostCompileError::UnknownMap { name: id.node })
            } else {
                r is Ok
            },
            _ => r is Ok,
        },
        r matches Ok(f) ==> exists|v: Seq<Label>, rhs: Fst| sigma_hat(*final(alpha), v) && #[trigger] filters_with(f, v, rhs),
{
    let rhs_acceptor = build_rhs_acceptor(rule, alpha, map_table)?;
    let sigma_hat_star = build_sigma_hat_star(alpha);
    let open_arc = step_machine(&vec![(BRACKET_OPEN_OBLIG_LABEL, BRACKET_OPEN_OBLIG_LABEL)]);
    let close_arc = step_machine(&vec![(BRACKET_CLOSE_OBLIG_LABEL, BRACKET_CLOSE_OBLIG_LABEL)]);
    let open_rhs = concat(&open_arc, &rhs_acceptor);
    let cell_no_tail = concat(&open_rhs, &close_arc);
    let cell_with_tail = concat(&cell_no_tail, &sigma_hat_star);
    let cells_star = closure_star(&cell_with_tail);
    let f = concat(&sigma_hat_star, &cells_star);
    proof {
        let v = choose|v: Seq<Label>|
            #![trigger is_loop_machine(sigma_hat_star, identity_pairs(v))]
            {
                &&& is_loop_machine(sigma_hat_star, identity_pairs(v))
                &&& v.no_duplicates()
                &&& forall|l: Label| #[trigger] v.contains(l) <==> (alpha.sigma_seq().contains(l) || l == BOUNDARY_LABEL
                    || l == WORD_START_LABEL || l == WORD_END_LABEL)
            };
        let rhs = rhs_acceptor;
        let o = seq![BRACKET_OPEN_OBLIG_LABEL];
        let c = seq![BRACKET_CLOSE_OBLIG_LABEL];
        assert forall|a: Seq<Label>, b: Seq<Label>| #[trigger] accepts(cell_with_tail, a, b) <==> filter_cell(v, rhs, a, b) by {
            lemma_concat_language(cell_no_tail, sigma_hat_star, cell_with_tail, a, b);
            if accepts(cell_with_tail, a, b) {
                let (p1, p2, q1, q2) = choose|p1: Seq<Label>, p2: Seq<Label>, q1: Seq<Label>, q2: Seq<Label>|
                    #![trigger accepts(cell_no_tail, p1, q1), accepts(sigma_hat_star, p2, q2)]
                    a == p1 + p2 && b == q1 + q2 && accepts(cell_no_tail, p1, q1) && accepts(sigma_hat_star, p2, q2);
                lemma_concat_language(open_rhs, close_arc, cell_no_tail, p1, q1);
                let (r1, r2, s1, s2) = choose|r1: Seq<Label>, r2: Seq<Label>, s1: Seq<Label>, s2: Seq<Label>|
                    #![trigger accepts(open_rhs, r1, s1), accepts(close_arc, r2, s2)]
                    p1 == r1 + r2 && q1 == s1 + s2 && accepts(open_rhs, r1, s1) && accepts(close_arc, r2, s2);
                lemma_concat_language(open_arc, rhs_acceptor, open_rhs, r1, s1);
                let (u1, u2, w1, w2) = choose|u1: Seq<Label>, u2: Seq<Label>, w1: Seq<Label>, w2: Seq<Label>|
                    #![trigger accepts(open_arc, u1, w1), accepts(rhs_acceptor, u2, w2)]
                    r1 == u1 + u2 && s1 == w1 + w2 && accepts(open_arc, u1, w1) && accepts(rhs_acceptor, u2, w2);
                lemma_single_step(open_arc, BRACKET_OPEN_OBLIG_LABEL, u1, w1);
                lemma_single_step(close_arc, BRACKET_CLOSE_OBLIG_LABEL, r2, s2);
                lemma_identity_loop_language(sigma_hat_star, v, p2, q2);
                assert(a == o + u2 + c + p2);
                assert(b == o + w2 + c + q2);
                assert(accepts(rhs, u2, w2));
            }
            if filter_cell(v, rhs, a, b) {
                let (a1, b1, a2, b2) = choose|a1: Seq<Label>, b1: Seq<Label>, a2: Seq<Label>, b2: Seq<Label>|
                    #![trigger accepts(rhs, a1, b1), copies_over(v, a2, b2)]
                    accepts(rhs, a1, b1) && copies_over(v, a2, b2) && a == o + a1 + c + a2 && b == o + b1 + c + b2;
                lemma_single_step(open_arc, BRACKET_OPEN_OBLIG_LABEL, o, o);
                lemma_single_step(close_arc, BRACKET_CLOSE_OBLIG_LABEL, c, c);
                lemma_concat_language(open_arc, rhs_acceptor, open_rhs, o + a1, o + b1);
                assert(accepts(open_rhs, o + a1, o + b1));
                lemma_concat_language(open_rhs, close_arc, cell_no_tail, o + a1 + c, o + b1 + c);
                assert(accepts(cell_no_tail, o + a1 + c, o + b1 + c));
                lemma_identity_loop_language(sigma_hat_star, v, a2, b2);
                assert(accepts(sigma_hat_star, a2, b2));
            }
        }
        assert forall|x: Seq<Label>, y: Seq<Label>|
            #[trigger] accepts(f, x, y) <==> exists|x0: Seq<Label>, y0: Seq<Label>, parts: Seq<(Seq<Label>, Seq<Label>)>|
                #[trigger] filter_split(v, rhs, x, y, x0, y0, parts) by {
            lemma_concat_language(sigma_hat_star, cells_star, f, x, y);
            if accepts(f, x, y) {
                let (x0, x1, y0, y1) = choose|x0: Seq<Label>, x1: Seq<Label>, y0: Seq<Label>, y1: Seq<Label>|
                    #![trigger accepts(sigma_hat_star, x0, y0), accepts(cells_star, x1, y1)]
                    x == x0 + x1 && y == y0 + y1 && accepts(sigma_hat_star, x0, y0) && accepts(cells_star, x1, y1);
                lemma_identity_loop_language(sigma_hat_star, v, x0, y0);
                lemma_star_language(cell_with_tail, cells_star, x1, y1);
                let parts = choose|parts: Seq<(Seq<Label>, Seq<Label>)>| #[trigger] joins(cell_with_tail, parts, x1, y1);
                assert forall|i: int| 0 <= i < parts.len() implies filter_cell(v, rhs, #[trigger] parts[i].0, parts[i].1) by {
                    assert(accepts(cell_with_tail, parts[i].0, parts[i].1));
                }
                assert(filter_split(v, rhs, x, y, x0, y0, parts));
            }
            if exists|x0: Seq<Label>, y0: Seq<Label>, parts: Seq<(Seq<Label>, Seq<Label>)>|
                #[trigger] filter_split(v, rhs, x, y, x0, y0, parts) {
                let (x0, y0, parts) = choose|x0: Seq<Label>, y0: Seq<Label>, parts: Seq<(Seq<Label>, Seq<Label>)>|
                    #[trigger] filter_split(v, rhs, x, y, x0, y0, parts);
                lemma_identity_loop_language(sigma_hat_star, v, x0, y0);
                assert forall|i: int| 0 <= i < parts.len() implies accepts(cell_with_tail, #[trigger] parts[i].0, parts[i].1) by {
                    assert(filter_cell(v, rhs, parts[i].0, parts[i].1));
                }
                assert(joins(cell_with_tail, parts, flat_in(parts), flat_out(parts)));
                lemma_star_language(cell_with_tail, cells_star, flat_in(parts), flat_out(parts));
                assert(accepts(cells_star, flat_in(parts), flat_out(parts)));
                assert(accepts(sigma_hat_star, x0, y0));
            }
        }
        assert(sigma_hat(*alpha, v));
        assert(filters_with(f, v, rhs));
    }
    Ok(f)
}

} // verus!
