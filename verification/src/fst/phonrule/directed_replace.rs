//! Directed replacement (`@->`): obligatory, longest, leftmost-first
//! rewriting with non-consuming contexts.
//!
//! The transducer is the composition
//!
//! ```text
//!   permissive_insert   an optional caret ^ at any position
//!   ∘ left_to_right     each ^ opens a bracketed event < LHS >
//!   ∘ longest_match     drop a < whose LHS reading has an interior >
//!   ∘ context_license   every < preceded by L, every > followed by R,
//!                       and no licensed LHS left unbracketed
//!   ∘ replace           inside < .. > transduce LHS to RHS
//!   ∘ strip             erase the markers
//! ```
//!
//! The contexts are made transparent to the brackets so that one context
//! symbol licenses any number of adjacent targets. Left-hand sides whose
//! longest match this construction cannot pin down (self-overlapping
//! literals, bounded or multi-atom variable runs, syllable atoms) are
//! refused with [`DirectedReplaceError::UnsupportedShape`].

use vstd::prelude::*;

use crate::ast::{PhonAtom, PhonContextElem, PhonPattern, PhonReplacement, PhonRewriteRule, Quantifier};
use crate::text::{str_chars, str_to_owned, string_push_str};
use super::super::alphabet::{
    PhonruleAlphabet, BOUNDARY_LABEL, BRACKET_CLOSE_OBLIG_LABEL, BRACKET_OPEN_OBLIG_LABEL, CARET_OBLIG_LABEL,
    WORD_END_LABEL, WORD_START_LABEL,
};
use super::super::backend::{Label, EPS_LABEL};
use super::super::machine::{
    arc_sort_input, arc_sort_output, chain_machine, closure_bounded, closure_optional, closure_plus, closure_star,
    complement, compose, concat, determinize, eps_remove, epsilon_machine, intersect, loop_machine, step_machine,
    union, Arc, Fst, accepts, arcs_over, composes, concats, is_chain_machine, optionals, pluses, stars, unites, identity_pairs, is_acceptor, is_loop_machine, is_step_machine, word_over,
};
use super::super::minimize::minimize;
use super::super::laws::{
    composed, copies_allowed, copies_between, copies_of, lemma_at_least_copies, lemma_no_runs, lemma_none_copies, lemma_optional_all,
    lemma_plus_copies, lemma_repeats_copies, lemma_runs_copies, lemma_star_copies, repeats, runs_copies_of,
};
use super::super::table::{ClassMembers, FstTable};
use super::class::{
    alphabet_extends, char_labels, chars_known, contains_label, lemma_extends_refl, lemma_extends_trans, lemma_intern_extends,
};
use super::context::{chain_row, elem_bounds_ok, is_skip_chain, seq_bounds_ok, skip_loops};
use super::replacement::{literal_labels, pattern_bounds_ok};
use super::replace::map_missing;

verus! {

/// Error compiling a directed replacement.
#[derive(Debug, Clone, PartialEq, Eq)]
pub enum DirectedReplaceError {
    /// The rule's shape is not supported by this construction.
    UnsupportedShape(String),
    /// A class referenced by the rule is not in the class table.
    UnknownClass(String),
    /// A map referenced by the rule is not in the map table.
    UnknownMap(String),
    /// An FST operation failed.
    Backend(String),
}

impl DirectedReplaceError {
    /// The message shown for this error.
    pub open spec fn msg(&self) -> Seq<char> {
        match self {
            DirectedReplaceError::UnsupportedShape(s) => "directed-replace: unsupported rule shape: "@ + s@,
            DirectedReplaceError::UnknownClass(s) => "directed-replace: unknown class: "@ + s@,
            DirectedReplaceError::UnknownMap(s) => "directed-replace: unknown map: "@ + s@,
            DirectedReplaceError::Backend(s) => "directed-replace: backend error: "@ + s@,
        }
    }

    /// The message shown for this error.
    pub fn message(&self) -> (s: String)
        ensures
            s@ == self.msg(),
    {
        match self {
            DirectedReplaceError::UnsupportedShape(s) => {
                let mut out = String::new();
                crate::text::string_push_str(&mut out, "directed-replace: unsupported rule shape: ");
                crate::text::string_push_str(&mut out, s.as_str());
                out
            },
            DirectedReplaceError::UnknownClass(s) => {
                let mut out = String::new();
                crate::text::string_push_str(&mut out, "directed-replace: unknown class: ");
                crate::text::string_push_str(&mut out, s.as_str());
                out
            },
            DirectedReplaceError::UnknownMap(s) => {
                let mut out = String::new();
                crate::text::string_push_str(&mut out, "directed-replace: unknown map: ");
                crate::text::string_push_str(&mut out, s.as_str());
                out
            },
            DirectedReplaceError::Backend(s) => {
                let mut out = String::new();
                crate::text::string_push_str(&mut out, "directed-replace: backend error: ");
                crate::text::string_push_str(&mut out, s.as_str());
                out
            },
        }
    }
}

/// Shorthand for a backend failure with a message.
fn be(msg: &str) -> (e: DirectedReplaceError)
    ensures
        e matches DirectedReplaceError::Backend(m) && m@ == msg@,
{
    DirectedReplaceError::Backend(str_to_owned(msg))
}

/// The label sets the construction works over.
struct Markers {
    /// Σ.
    sigma: Vec<Label>,
    /// The stream markers `<bdy>`, `<^>`, `<$>`.
    stream: Vec<Label>,
}

impl Markers {
    fn new(alpha: &PhonruleAlphabet) -> (m: Self)
        ensures
            m.sigma@ == alpha.sigma_seq(),
            m.stream@ == seq![BOUNDARY_LABEL, WORD_START_LABEL, WORD_END_LABEL],
    {
        Markers { sigma: alpha.sigma(), stream: vec![BOUNDARY_LABEL, WORD_START_LABEL, WORD_END_LABEL] }
    }

    /// Σ_b: Σ and the stream markers.
    fn sigma_b(&self) -> (v: Vec<Label>)
        ensures
            v@ == self.sigma@ + self.stream@,
    {
        let mut v: Vec<Label> = Vec::new();
        append_labels(&mut v, &self.sigma);
        append_labels(&mut v, &self.stream);
        v
    }

    /// Σ_M: Σ_b and both brackets.
    fn sigma_with_brackets(&self) -> (v: Vec<Label>)
        ensures
            v@ == self.sigma@ + self.stream@ + seq![BRACKET_OPEN_OBLIG_LABEL, BRACKET_CLOSE_OBLIG_LABEL],
    {
        let mut v = self.sigma_b();
        v.push(BRACKET_OPEN_OBLIG_LABEL);
        v.push(BRACKET_CLOSE_OBLIG_LABEL);
        proof {
            assert(v@ =~= self.sigma@ + self.stream@ + seq![BRACKET_OPEN_OBLIG_LABEL, BRACKET_CLOSE_OBLIG_LABEL]);
        }
        v
    }
}

/// Append the labels of `src` to `dst`.
fn append_labels(dst: &mut Vec<Label>, src: &Vec<Label>)
    ensures
        final(dst)@ == old(dst)@ + src@,
{
    let mut i: usize = 0;
    while i < src.len()
        invariant
            i <= src@.len(),
            dst@ == old(dst)@ + src@.take(i as int),
        decreases src@.len() - i,
    {
        dst.push(src[i]);
        proof {
            assert(src@.take(i + 1) == src@.take(i as int).push(src@[i as int]));
        }
        i = i + 1;
    }
    proof {
        assert(src@.take(src@.len() as int) == src@);
    }
}

/// The labels of `src` other than `x`, in order.
fn labels_without(src: &Vec<Label>, x: Label) -> (v: Vec<Label>)
    ensures
        v@ == src@.filter(|l: Label| l != x),
{
    let mut v: Vec<Label> = Vec::new();
    let mut i: usize = 0;
    while i < src.len()
        invariant
            i <= src@.len(),
            v@ == src@.take(i as int).filter(|l: Label| l != x),
        decreases src@.len() - i,
    {
        proof {
            assert(src@.take(i + 1).drop_last() =~= src@.take(i as int));
            reveal_with_fuel(Seq::filter, 1);
        }
        if src[i] != x {
            v.push(src[i]);
        }
        i = i + 1;
    }
    proof {
        assert(src@.take(src@.len() as int) =~= src@);
    }
    v
}

/// Identity pairs of the labels.
fn id_pairs(labels: &Vec<Label>) -> (r: Vec<(Label, Label)>)
    ensures
        r@ == identity_pairs(labels@),
{
    let mut r: Vec<(Label, Label)> = Vec::new();
    let mut i: usize = 0;
    while i < labels.len()
        invariant
            i <= labels@.len(),
            r@ == identity_pairs(labels@.take(i as int)),
        decreases labels@.len() - i,
    {
        r.push((labels[i], labels[i]));
        proof {
            assert(identity_pairs(labels@.take(i + 1)) =~= identity_pairs(labels@.take(i as int)).push((labels@[i as int], labels@[i as int])));
        }
        i = i + 1;
    }
    proof {
        assert(labels@.take(labels@.len() as int) =~= labels@);
    }
    r
}

/// `labels*`: a one-state identity loop.
fn star_over(labels: &Vec<Label>) -> (f: Fst)
    ensures
        f.wf(),
        is_loop_machine(f, identity_pairs(labels@)),
{
    loop_machine(&id_pairs(labels))
}

/// One symbol of `labels`.
fn step_over(labels: &Vec<Label>) -> (f: Fst)
    ensures
        f.wf(),
        is_step_machine(f, identity_pairs(labels@)),
{
    step_machine(&id_pairs(labels))
}

/// One arc `input:output`.
fn single_arc(input: Label, output: Label) -> (f: Fst)
    ensures
        f.wf(),
        is_step_machine(f, seq![(input, output)]),
{
    step_machine(&vec![(input, output)])
}

/// `a ∘ b`, arc-sorted as the composition expects.
fn compose_sorted(a: &Fst, b: &Fst) -> (r: Fst)
    requires
        a.wf(),
        b.wf(),
    ensures
        r.wf(),
        forall|x: Seq<Label>, z: Seq<Label>|
            #[trigger] accepts(r, x, z) <==> exists|y: Seq<Label>| accepts(*a, x, y) && accepts(*b, y, z),
{
    let sa = arc_sort_output(a);
    let sb = arc_sort_input(b);
    let r = compose(&sa, &sb);
    proof {
        assert forall|x: Seq<Label>, z: Seq<Label>|
            #[trigger] accepts(r, x, z) <==> exists|y: Seq<Label>| accepts(*a, x, y) && accepts(*b, y, z) by {
            super::super::laws::lemma_compose_language(sa, sb, r, x, z);
            assert forall|y: Seq<Label>| accepts(sa, x, y) == accepts(*a, x, y) && accepts(sb, y, z) == accepts(*b, y, z) by {
                super::super::laws::lemma_same_shape_accepts(sa, *a, x, y);
                super::super::laws::lemma_same_shape_accepts(sb, *b, y, z);
            }
        }
    }
    r
}

/// Remove epsilons, determinise and minimise (the construction's normal
/// form for the operands of complements).
fn det_min(a: &Fst) -> (r: Result<Fst, DirectedReplaceError>)
    requires
        a.wf(),
    ensures
        r matches Ok(f) ==> f.wf() && forall|x: Seq<Label>, y: Seq<Label>| #[trigger] accepts(f, x, y) == accepts(*a, x, y),
        r is Ok,
{
    let e = eps_remove(a);
    match determinize(&e) {
        Ok(d) => {
            let m = minimize(&d);
            proof {
                assert forall|x: Seq<Label>, y: Seq<Label>| #[trigger] accepts(m, x, y) == accepts(*a, x, y) by {
                    super::super::minimize::lemma_minimize_language(m, d, x, y);
                    super::super::laws::lemma_determinize_language(e, d, x, y);
                    super::super::laws::lemma_eps_remove_language(*a, e, x, y);
                }
            }
            Ok(m)
        },
        Err(_) => Err(be("determinisation exceeded the state limit")),
    }
}

/// Complement over `alphabet`.
fn complement_over(a: &Fst, alphabet: &Vec<Label>) -> (r: Result<Fst, DirectedReplaceError>)
    requires
        a.wf(),
    ensures
        r matches Ok(f) ==> f.wf() && complements(f, *a, alphabet@),
        r is Ok,
{
    match complement(a, alphabet.as_slice()) {
        Ok(f) => Ok(f),
        Err(_) => Err(be("complement exceeded the state limit")),
    }
}

/// State `t` is reached from `p` by some run.
pub open spec fn reaches(f: Fst, p: int, t: int) -> bool {
    exists|steps: Seq<int>| #[trigger] super::super::machine::is_run(f, p, steps, t)
}

/// Some final state is reachable from the start state.
pub open spec fn final_reachable(f: Fst) -> bool {
    &&& f.start is Some
    &&& exists|t: int| 0 <= t < f.n() && f.is_final(t) && #[trigger] reaches(f, f.start->0 as int, t)
}

/// The number of `true` flags.
pub open spec fn count_true(v: Seq<bool>) -> int
    decreases v.len(),
{
    if v.len() == 0 {
        0
    } else {
        count_true(v.drop_last()) + if v.last() { 1int } else { 0int }
    }
}

pub(crate) proof fn lemma_count_true(v: Seq<bool>, i: int)
    ensures
        0 <= count_true(v) <= v.len(),
        0 <= i < v.len() && !v[i] ==> count_true(v) < v.len(),
        0 <= i < v.len() && !v[i] ==> count_true(v.update(i, true)) == count_true(v) + 1,
    decreases v.len(),
{
    if v.len() > 0 {
        lemma_count_true(v.drop_last(), i);
        if 0 <= i < v.len() - 1 {
            assert(v.update(i, true).drop_last() =~= v.drop_last().update(i, true));
        } else if i == v.len() - 1 {
            assert(v.update(i, true).drop_last() =~= v.drop_last());
        }
    }
}

/// A run from a state of a set closed under arcs ends in the set.
pub(crate) proof fn lemma_closed_run(f: Fst, seen: Seq<bool>, p: int, steps: Seq<int>, t: int)
    requires
        f.wf(),
        seen.len() == f.n(),
        0 <= p < f.n(),
        seen[p],
        super::super::machine::is_run(f, p, steps, t),
        forall|s: int, k: int|
            0 <= s < f.n() && seen[s] && 0 <= k < f.deg(s) ==> #[trigger] seen[f.arc(s, k).nextstate as int],
    ensures
        0 <= t < f.n(),
        seen[t],
    decreases steps.len(),
{
    if steps.len() > 0 {
        let nx = f.arc(p, steps[0]).nextstate as int;
        assert(seen[nx]);
        lemma_closed_run(f, seen, nx, steps.drop_first(), t);
    }
}

/// Whether some state reachable from the start state is final.
fn has_accepting_state(f: &Fst) -> (b: bool)
    requires
        f.wf(),
    ensures
        b == final_reachable(*f),
{
    let s = match f.start {
        Some(s) => s,
        None => {
            return false;
        },
    };
    let n = f.arcs.len();
    let mut seen: Vec<bool> = Vec::new();
    let mut i: usize = 0;
    while i < n
        invariant
            i <= n,
            seen@.len() == i,
            forall|j: int| 0 <= j < i ==> !#[trigger] seen@[j],
        decreases n - i,
    {
        seen.push(false);
        i = i + 1;
    }
    proof {
        assert(count_true(seen@) == 0) by {
            assert forall|m: int| 0 <= m <= seen@.len() implies count_true(#[trigger] seen@.take(m)) == 0 by {
                lemma_count_zero(seen@, m);
            }
            assert(seen@.take(seen@.len() as int) =~= seen@);
        }
        lemma_count_true(seen@, s as int);
        assert(super::super::machine::is_run(*f, s as int, Seq::<int>::empty(), s as int));
    }
    let mut stack: Vec<usize> = vec![s];
    seen.set(s, true);
    let mut visited: usize = 1;
    let ghost mut done: Seq<bool> = Seq::new(n as nat, |j: int| false);
    while stack.len() > 0
        invariant
            f.wf(),
            f.start == Some(s),
            n == f.arcs@.len(),
            seen@.len() == n,
            done.len() == n,
            (s as int) < n,
            seen@[s as int],
            forall|k: int| 0 <= k < stack@.len() ==> (#[trigger] stack@[k]) < n && seen@[stack@[k] as int],
            stack@.len() <= visited,
            visited <= n,
            visited == count_true(seen@),
            forall|t: int| 0 <= t < n && #[trigger] seen@[t] ==> reaches(*f, s as int, t),
            forall|t: int| 0 <= t < n && #[trigger] seen@[t] ==> done[t] || stack@.contains(t as usize),
            forall|t: int| 0 <= t < n && #[trigger] done[t] ==> seen@[t] && !f.is_final(t) && forall|k: int|
                0 <= k < f.deg(t) ==> #[trigger] seen@[f.arc(t, k).nextstate as int],
        decreases n - visited, stack@.len(),
    {
        let ghost before = stack@;
        let q = stack.pop().unwrap();
        proof {
            assert(seen@[q as int]);
            assert forall|t: int| 0 <= t < n && #[trigger] seen@[t] implies done[t] || stack@.contains(t as usize) || t == q by {
                if !done[t] {
                    let j = choose|j: int| 0 <= j < before.len() && before[j] == t as usize;
                    if j < before.len() - 1 {
                        assert(stack@[j] == t as usize);
                    }
                }
            }
        }
        if f.finals[q] {
            proof {
                assert(reaches(*f, s as int, q as int));
                assert(f.is_final(q as int));
            }
            return true;
        }
        let ghost v0 = visited;
        let ghost s0 = stack@.len();
        let ghost st0 = stack@;
        let mut k: usize = 0;
        while k < f.arcs[q].len()
            invariant
                f.wf(),
                f.start == Some(s),
                n == f.arcs@.len(),
                q < n,
                seen@.len() == n,
                done.len() == n,
                seen@[q as int],
                seen@[s as int],
                !f.is_final(q as int),
                k <= f.deg(q as int),
                forall|j: int| 0 <= j < stack@.len() ==> (#[trigger] stack@[j]) < n && seen@[stack@[j] as int],
                stack@.len() <= visited,
                visited <= n,
                v0 <= visited,
                visited - v0 == stack@.len() - s0,
                visited == count_true(seen@),
                forall|t: int| 0 <= t < n && #[trigger] seen@[t] ==> reaches(*f, s as int, t),
                forall|t: int| 0 <= t < n && #[trigger] seen@[t] ==> done[t] || stack@.contains(t as usize) || t == q,
                forall|t: int| 0 <= t < n && #[trigger] done[t] ==> seen@[t] && !f.is_final(t) && forall|j: int|
                    0 <= j < f.deg(t) ==> #[trigger] seen@[f.arc(t, j).nextstate as int],
                forall|j: int| 0 <= j < k ==> #[trigger] seen@[f.arc(q as int, j).nextstate as int],
            decreases f.arcs@[q as int]@.len() - k,
        {
            let t = f.arcs[q][k].nextstate;
            proof {
                assert(f.arc(q as int, k as int) == f.arcs@[q as int]@[k as int]);
            }
            if !seen[t] {
                let ghost sn0 = seen@;
                let ghost sk0 = stack@;
                proof {
                    lemma_count_true(seen@, t as int);
                    let steps = choose|steps: Seq<int>| #[trigger] super::super::machine::is_run(*f, s as int, steps, q as int);
                    super::super::machine::lemma_run_append(*f, s as int, steps, q as int, k as int);
                    assert(super::super::machine::is_run(*f, s as int, steps.push(k as int), t as int));
                }
                seen.set(t, true);
                stack.push(t);
                visited = visited + 1;
                proof {
                    assert forall|u: int| 0 <= u < n && #[trigger] seen@[u] implies done[u] || stack@.contains(u as usize) || u == q by {
                        if u != t {
                            assert(sn0[u]);
                            if sk0.contains(u as usize) {
                                let j = choose|j: int| 0 <= j < sk0.len() && sk0[j] == u as usize;
                                assert(stack@[j] == u as usize);
                            }
                        } else {
                            assert(stack@[stack@.len() - 1] == t);
                        }
                    }
                    assert forall|u: int| 0 <= u < n && #[trigger] done[u] implies seen@[u] && !f.is_final(u) && forall|j: int|
                        0 <= j < f.deg(u) ==> #[trigger] seen@[f.arc(u, j).nextstate as int] by {
                        assert forall|j: int| 0 <= j < f.deg(u) implies #[trigger] seen@[f.arc(u, j).nextstate as int] by {
                            assert(sn0[f.arc(u, j).nextstate as int]);
                        }
                    }
                    assert forall|j: int| 0 <= j < k + 1 implies #[trigger] seen@[f.arc(q as int, j).nextstate as int] by {
                        if j < k {
                            assert(sn0[f.arc(q as int, j).nextstate as int]);
                        }
                    }
                }
            }
            k = k + 1;
        }
        proof {
            done = done.update(q as int, true);
            assert forall|t: int| 0 <= t < n && #[trigger] seen@[t] implies done[t] || stack@.contains(t as usize) by {
            }
            assert forall|t: int| 0 <= t < n && #[trigger] done[t] implies seen@[t] && !f.is_final(t) && forall|j: int|
                0 <= j < f.deg(t) ==> #[trigger] seen@[f.arc(t, j).nextstate as int] by {
                if t == q {
                    assert forall|j: int| 0 <= j < f.deg(t) implies #[trigger] seen@[f.arc(t, j).nextstate as int] by {
                        assert(f.arc(q as int, j) == f.arc(t, j));
                    }
                }
            }
        }
    }
    proof {
        assert forall|t: int| 0 <= t < n && #[trigger] seen@[t] implies done[t] by {
            assert(!stack@.contains(t as usize));
        }
        if final_reachable(*f) {
            let t = choose|t: int| 0 <= t < f.n() && f.is_final(t) && #[trigger] reaches(*f, f.start->0 as int, t);
            let steps = choose|steps: Seq<int>| #[trigger] super::super::machine::is_run(*f, s as int, steps, t);
            assert forall|u: int, j: int|
                0 <= u < f.n() && seen@[u] && 0 <= j < f.deg(u) implies #[trigger] seen@[f.arc(u, j).nextstate as int] by {
                assert(done[u]);
            }
            lemma_closed_run(*f, seen@, s as int, steps, t);
            assert(done[t]);
        }
    }
    false
}

pub(crate) proof fn lemma_count_zero(v: Seq<bool>, m: int)
    requires
        0 <= m <= v.len(),
        forall|j: int| 0 <= j < v.len() ==> !#[trigger] v[j],
    ensures
        count_true(v.take(m)) == 0,
    decreases m,
{
    if m > 0 {
        lemma_count_zero(v, m - 1);
        assert(v.take(m).drop_last() =~= v.take(m - 1));
    }
}

/// Which edge of a context sequence keeps the brackets from being skipped.
#[derive(Clone, Copy, PartialEq, Eq, Structural)]
enum Seal {
    Unsealed,
    Leading,
    Trailing,
    Both,
}

/// How the left-hand side's match length behaves.
enum LhsShape {
    /// One match length at every start.
    Fixed,
    /// A maximal run of one symbol set.
    SingleAtomRun { set: Vec<Label> },
    /// Not supported; the message says why.
    Unsupported(String),
}

/// Some proper non-empty suffix of `s` equals the prefix of the same
/// length.
pub open spec fn self_overlaps(s: Seq<char>) -> bool {
    exists|k: int| 1 <= k < s.len() && #[trigger] s.subrange(0, k) == s.subrange(s.len() - k, s.len() as int)
}

/// Whether the literal self-overlaps.
pub fn literal_self_overlaps(s: &str) -> (b: bool)
    ensures
        b == self_overlaps(s@),
{
    let chars = str_chars(s);
    let n = chars.len();
    let mut k: usize = 1;
    while k < n
        invariant
            chars@ == s@,
            n == chars@.len(),
            1 <= k,
            forall|j: int| 1 <= j < k && j < n ==> #[trigger] s@.subrange(0, j) != s@.subrange(n - j, n as int),
        decreases n - k,
    {
        let mut eq = true;
        let mut i: usize = 0;
        while i < k
            invariant
                k < n,
                n == chars@.len(),
                i <= k,
                eq == forall|j: int| 0 <= j < i ==> #[trigger] chars@[j] == chars@[n - k + j],
            decreases k - i,
        {
            if chars[i] != chars[n - k + i] {
                eq = false;
            }
            i = i + 1;
        }
        if eq {
            proof {
                assert(s@.subrange(0, k as int) =~= s@.subrange(n - k, n as int));
            }
            return true;
        }
        proof {
            let j = choose|j: int| 0 <= j < k && #[trigger] chars@[j] != chars@[n - k + j];
            assert(s@.subrange(0, k as int)[j] != s@.subrange(n - k, n as int)[j]);
        }
        k = k + 1;
    }
    false
}

/// The fixed width of an alternation arm: a single atom taken exactly
/// once, as wide as its literal (one for any other atom).
pub open spec fn spec_arm_width(e: PhonContextElem) -> Option<int> {
    match e {
        PhonContextElem::Atom(atom, Quantifier::Exact(n)) => if n == 1 {
            match atom {
                PhonAtom::Literal(l) => Some(l.node@.len() as int),
                _ => Some(1),
            }
        } else {
            None
        },
        _ => None,
    }
}

/// Every arm of a non-empty alternation has the same fixed width.
pub open spec fn spec_arms_equal_width(arms: Seq<PhonContextElem>) -> bool {
    &&& arms.len() > 0
    &&& spec_arm_width(arms[0]) is Some
    &&& forall|i: int| 0 <= i < arms.len() ==> #[trigger] spec_arm_width(arms[i]) == spec_arm_width(arms[0])
}

/// Width of an alternation arm, when fixed.
fn arm_width(e: &PhonContextElem) -> (w: Option<usize>)
    ensures
        match spec_arm_width(*e) {
            Some(k) => w matches Some(v) && v as int == k,
            None => w is None,
        },
{
    match e {
        PhonContextElem::Atom(atom, q) => match q {
            Quantifier::Exact(n) => {
                if *n == 1 {
                    match atom {
                        PhonAtom::Literal(l) => Some(str_chars(l.node.as_str()).len()),
                        _ => Some(1),
                    }
                } else {
                    None
                }
            },
            _ => None,
        },
        _ => None,
    }
}

/// Every arm has the same fixed width.
fn alt_arms_equal_width(arms: &Vec<PhonContextElem>) -> (b: bool)
    ensures
        b == spec_arms_equal_width(arms@),
{
    if arms.len() == 0 {
        return false;
    }
    let first = match arm_width(&arms[0]) {
        Some(w) => w,
        None => {
            return false;
        },
    };
    let mut i: usize = 1;
    while i < arms.len()
        invariant
            1 <= i <= arms@.len(),
            spec_arm_width(arms@[0]) == Some(first as int),
            forall|j: int| 0 <= j < i ==> #[trigger] spec_arm_width(arms@[j]) == spec_arm_width(arms@[0]),
        decreases arms@.len() - i,
    {
        match arm_width(&arms[i]) {
            Some(w) => {
                if w != first {
                    return false;
                }
            },
            None => {
                return false;
            },
        }
        i = i + 1;
    }
    true
}

/// The labels of a class's members, interned.
fn class_member_labels(name: &str, alpha: &mut PhonruleAlphabet, class_table: &ClassMembers) -> (r: Result<Vec<Label>, DirectedReplaceError>)
    requires
        old(alpha).wf(),
    ensures
        alphabet_extends(*old(alpha), *final(alpha)),
        r is Err <==> class_table.spec_get(name@) is None,
        r matches Err(e) ==> e is UnknownClass,
        r matches Err(DirectedReplaceError::UnknownClass(n)) ==> n@ == name@,
        r matches Ok(v) ==> members_known(*final(alpha), class_table.spec_get(name@)->0) && v@ == member_labels(
            *final(alpha),
            class_table.spec_get(name@)->0,
        ),
{
    proof {
        lemma_extends_refl(*alpha);
    }
    let members = match class_table.get(name) {
        Some(m) => m,
        None => {
            return Err(DirectedReplaceError::UnknownClass(str_to_owned(name)));
        },
    };
    let ghost a0 = *alpha;
    let mut out: Vec<Label> = Vec::new();
    let mut i: usize = 0;
    while i < members.len()
        invariant
            i <= members@.len(),
            a0.wf(),
            a0 == *old(alpha),
            alphabet_extends(a0, *alpha),
            members_known(*alpha, members@.take(i as int)),
            out@ == member_labels(*alpha, members@.take(i as int)),
        decreases members@.len() - i,
    {
        let ghost a1 = *alpha;
        let l = alpha.intern(members[i].as_str());
        proof {
            lemma_intern_extends(a1, *alpha, members@[i as int]@, l);
            lemma_extends_trans(a0, a1, *alpha);
            lemma_members_stable(a1, *alpha, members@.take(i as int));
        }
        out.push(l);
        proof {
            let t = members@.take(i + 1);
            assert(t.take(i as int) =~= members@.take(i as int));
            assert forall|k: int| 0 <= k < t.len() implies alpha.spec_lookup((#[trigger] t[k])@) is Some by {
                if k < i {
                    assert(t[k] == members@.take(i as int)[k]);
                }
            }
            assert(out@ =~= member_labels(*alpha, t)) by {
                assert forall|k: int| 0 <= k < i implies out@[k] == member_labels(*alpha, t)[k] by {
                    assert(t[k] == members@.take(i as int)[k]);
                }
            }
        }
        i = i + 1;
    }
    proof {
        assert(members@.take(members@.len() as int) =~= members@);
    }
    Ok(out)
}

/// Each member name is a known symbol.
pub open spec fn members_known(alpha: PhonruleAlphabet, ms: Seq<String>) -> bool {
    forall|k: int| 0 <= k < ms.len() ==> alpha.spec_lookup((#[trigger] ms[k])@) is Some
}

/// The labels of the member names.
pub open spec fn member_labels(alpha: PhonruleAlphabet, ms: Seq<String>) -> Seq<Label> {
    ms.map_values(|m: String| super::class::lit_label(alpha, m@))
}

proof fn lemma_members_stable(a1: PhonruleAlphabet, a2: PhonruleAlphabet, ms: Seq<String>)
    requires
        members_known(a1, ms),
        alphabet_extends(a1, a2),
    ensures
        members_known(a2, ms),
        member_labels(a2, ms) == member_labels(a1, ms),
{
    assert forall|k: int| 0 <= k < ms.len() implies a2.spec_lookup((#[trigger] ms[k])@) == a1.spec_lookup(ms[k]@) by {
        assert(a1.spec_lookup(ms[k]@) is Some);
    }
    assert(member_labels(a2, ms) =~= member_labels(a1, ms));
}

/// Σ members outside a class, in Σ order.
fn sigma_minus(alpha: &PhonruleAlphabet, members: &Vec<Label>) -> (r: Vec<Label>)
    ensures
        r@ == alpha.sigma_seq().filter(|l: Label| !members@.contains(l)),
{
    let sigma = alpha.sigma();
    let mut r: Vec<Label> = Vec::new();
    let mut i: usize = 0;
    while i < sigma.len()
        invariant
            i <= sigma@.len(),
            sigma@ == alpha.sigma_seq(),
            r@ == sigma@.take(i as int).filter(|l: Label| !members@.contains(l)),
        decreases sigma@.len() - i,
    {
        proof {
            assert(sigma@.take(i + 1).drop_last() =~= sigma@.take(i as int));
            reveal_with_fuel(Seq::filter, 1);
        }
        if !contains_label(members, sigma[i]) {
            r.push(sigma[i]);
        }
        i = i + 1;
    }
    proof {
        assert(sigma@.take(sigma@.len() as int) =~= sigma@);
    }
    r
}

/// The symbols a simple atom matches in one step: `Some(Some(..))` with
/// them (empty for a multi-character literal), `Some(None)` for an
/// alternation or syllable block, `None` when it names an unknown class.
pub open spec fn atom_set(alpha: PhonruleAlphabet, class_table: ClassMembers, atom: PhonAtom) -> Option<Option<Seq<Label>>> {
    match atom {
        PhonAtom::Class(n) => match class_table.spec_get(n.node@) {
            Some(ms) => Some(Some(member_labels(alpha, ms))),
            None => None,
        },
        PhonAtom::NegClass(n) => match class_table.spec_get(n.node@) {
            Some(ms) => Some(Some(alpha.sigma_seq().filter(|l: Label| !member_labels(alpha, ms).contains(l)))),
            None => None,
        },
        PhonAtom::Wildcard => Some(Some(alpha.sigma_seq())),
        PhonAtom::Literal(lit) => if lit.node@.len() == 1 {
            Some(Some(seq![super::class::lit_label(alpha, lit.node@)]))
        } else {
            Some(Some(Seq::empty()))
        },
        _ => Some(None),
    }
}

/// A left-hand side of one atom takes the shape [`single_atom_shape`]
/// gives.
spec fn single_atom_lhs(pat: PhonPattern, alpha: PhonruleAlphabet, class_table: ClassMembers, r: Result<LhsShape, DirectedReplaceError>) -> bool {
    match pat {
        PhonPattern::Range(es) => if es@.len() == 1 {
            match es@[0] {
                PhonContextElem::Atom(atom, q) => single_atom_shape(r, atom_set(alpha, class_table, atom), q),
                _ => true,
            }
        } else {
            true
        },
        _ => true,
    }
}

/// A quantifier with one fixed count.
pub open spec fn quant_is_fixed(q: Quantifier) -> bool {
    q is Exact || (q matches Quantifier::Range(n, m) && n == m)
}

/// An unbounded quantifier with minimum at most one.
pub open spec fn quant_is_run(q: Quantifier) -> bool {
    q is Plus || q is Star || (q matches Quantifier::AtLeast(n) && n <= 1)
}

/// The shape of a one-atom left-hand side whose atom matches `set` and is
/// repeated by `q`.
spec fn single_atom_shape(r: Result<LhsShape, DirectedReplaceError>, set: Option<Option<Seq<Label>>>, q: Quantifier) -> bool {
    match set {
        None => r is Err,
        Some(None) => r matches Ok(LhsShape::Unsupported(_)),
        Some(Some(v)) => if v.len() > 0 && quant_is_fixed(q) {
            r matches Ok(LhsShape::Fixed)
        } else if v.len() > 0 && quant_is_run(q) {
            r matches Ok(LhsShape::SingleAtomRun { set }) && set@ == v
        } else if v.len() > 0 {
            r matches Ok(LhsShape::Unsupported(_))
        } else if quant_is_fixed(q) {
            r matches Ok(LhsShape::Fixed)
        } else {
            r matches Ok(LhsShape::Unsupported(_))
        },
    }
}

/// The symbols a simple atom matches in one step; `Some(empty)` for a
/// multi-character literal; `None` for an alternation or syllable block.
fn atom_segment_set(atom: &PhonAtom, alpha: &mut PhonruleAlphabet, class_table: &ClassMembers) -> (r: Result<Option<Vec<Label>>, DirectedReplaceError>)
    requires
        old(alpha).wf(),
    ensures
        alphabet_extends(*old(alpha), *final(alpha)),
        r is Ok <==> atom_set(*final(alpha), *class_table, *atom) is Some,
        r matches Ok(o) ==> match o {
            Some(v) => atom_set(*final(alpha), *class_table, *atom) == Some(Some(v@)),
            None => atom_set(*final(alpha), *class_table, *atom) == Some(None::<Seq<Label>>),
        },
        r matches Err(DirectedReplaceError::UnknownClass(n)) ==> class_table.spec_get(n@) is None,
        !(r matches Err(DirectedReplaceError::UnknownMap(_))),
        r matches Err(e) ==> e is UnknownClass,
{
    proof {
        lemma_extends_refl(*alpha);
    }
    match atom {
        PhonAtom::Class(name) => {
            let labels = class_member_labels(name.node.as_str(), alpha, class_table)?;
            Ok(Some(labels))
        },
        PhonAtom::NegClass(name) => {
            let members = class_member_labels(name.node.as_str(), alpha, class_table)?;
            Ok(Some(sigma_minus(alpha, &members)))
        },
        PhonAtom::Wildcard => Ok(Some(alpha.sigma())),
        PhonAtom::Literal(lit) => {
            if str_chars(lit.node.as_str()).len() == 1 {
                let ghost a0 = *alpha;
                let l = alpha.intern(lit.node.as_str());
                proof {
                    lemma_intern_extends(a0, *alpha, lit.node@, l);
                }
                Ok(Some(vec![l]))
            } else {
                Ok(Some(Vec::new()))
            }
        },
        PhonAtom::Alt(_) | PhonAtom::SylBlock(_) => Ok(None),
    }
}

/// A quantifier with one fixed count.
fn quant_fixed(q: Quantifier) -> (b: bool)
    ensures
        b == (q is Exact || (q matches Quantifier::Range(n, m) && n == m)),
{
    match q {
        Quantifier::Exact(_) => true,
        Quantifier::Range(n, m) => n == m,
        _ => false,
    }
}

/// An unbounded quantifier with minimum at most one.
fn quant_run(q: Quantifier) -> (b: bool)
    ensures
        b == (q is Plus || q is Star || (q matches Quantifier::AtLeast(n) && n <= 1)),
{
    match q {
        Quantifier::Plus | Quantifier::Star => true,
        Quantifier::AtLeast(n) => n <= 1,
        _ => false,
    }
}

/// Classify the left-hand side (interning the symbols it names).
fn classify_lhs(pat: &PhonPattern, alpha: &mut PhonruleAlphabet, class_table: &ClassMembers) -> (r: Result<LhsShape, DirectedReplaceError>)
    requires
        old(alpha).wf(),
    ensures
        alphabet_extends(*old(alpha), *final(alpha)),
        pat matches PhonPattern::Literal(l) ==> (r matches Ok(LhsShape::Unsupported(_))) == self_overlaps(l.node@),
        pat matches PhonPattern::Literal(l) ==> (r matches Ok(LhsShape::Fixed)) == !self_overlaps(l.node@),
        pat matches PhonPattern::Literal(l) ==> r is Ok,
        single_atom_lhs(*pat, *final(alpha), *class_table, r),
        r is Err ==> (r->Err_0 is UnknownClass && !lhs_classes_known(*pat, *class_table)),
        pat is Class ==> (r is Ok && r->Ok_0 is Fixed),
        (pat is Range && (pat->Range_0@.len() != 1 || !(pat->Range_0@[0] is Atom))) ==> (r is Ok && r->Ok_0 is Unsupported),
        r matches Err(DirectedReplaceError::UnknownClass(n)) ==> class_table.spec_get(n@) is None,
        !(r matches Err(DirectedReplaceError::UnknownMap(_))),
{
    proof {
        lemma_extends_refl(*alpha);
    }
    match pat {
        PhonPattern::Class(_) => Ok(LhsShape::Fixed),
        PhonPattern::Literal(s) => {
            if literal_self_overlaps(s.node.as_str()) {
                let mut msg = str_to_owned("self-overlapping multi-character literal LHS (\"");
                string_push_str(&mut msg, s.node.as_str());
                string_push_str(
                    &mut msg,
                    "\") — a new match can begin inside a previous one; needs the NotLeftmost filter, not built here",
                );
                Ok(LhsShape::Unsupported(msg))
            } else {
                Ok(LhsShape::Fixed)
            }
        },
        PhonPattern::Range(elems) => {
            if elems.len() == 1 {
                match &elems[0] {
                    PhonContextElem::Atom(atom, quant) => {
                        let fixed = quant_fixed(*quant);
                        let run = quant_run(*quant);
                        let set = match atom_segment_set(atom, alpha, class_table) {
                            Ok(v) => v,
                            Err(e) => {
                                proof {
                                    assert(!dr_elem_ok(elems@[0], *class_table));
                                    assert(!dr_seq_ok(elems@, *class_table));
                                }
                                return Err(e);
                            },
                        };
                        return Ok(match set {
                            Some(s) => {
                                if s.len() > 0 && fixed {
                                    LhsShape::Fixed
                                } else if s.len() > 0 && run {
                                    LhsShape::SingleAtomRun { set: s }
                                } else if s.len() > 0 {
                                    LhsShape::Unsupported(str_to_owned(
                                        "bounded variable-length single-atom LHS — only `+`/`*`/`{n,}` with n<=1 are longest-match-exact",
                                    ))
                                } else if fixed {
                                    LhsShape::Fixed
                                } else {
                                    LhsShape::Unsupported(str_to_owned("variable-length multi-character-literal LHS"))
                                }
                            },
                            None => LhsShape::Unsupported(str_to_owned(
                                "variable-length LHS over a non-simple atom (alternation / syllable)",
                            )),
                        });
                    },
                    _ => {},
                }
            }
            let mut all_fixed = true;
            let mut i: usize = 0;
            while i < elems.len()
                invariant
                    i <= elems@.len(),
                    alphabet_extends(*old(alpha), *alpha),
                    *pat == PhonPattern::Range(*elems),
                    elems@.len() != 1 || !(elems@[0] is Atom),
                decreases elems@.len() - i,
            {
                match &elems[i] {
                    PhonContextElem::Atom(atom, quant) => {
                        let q_fixed = quant_fixed(*quant);
                        let atom_fixed = match atom {
                            PhonAtom::Alt(arms) => alt_arms_equal_width(arms),
                            PhonAtom::SylBlock(_) => false,
                            _ => true,
                        };
                        if !q_fixed || !atom_fixed {
                            all_fixed = false;
                        }
                    },
                    PhonContextElem::Boundary | PhonContextElem::WordStart | PhonContextElem::WordEnd => {},
                    _ => {
                        return Ok(LhsShape::Unsupported(str_to_owned("syllable LHS atom")));
                    },
                }
                i = i + 1;
            }
            if all_fixed {
                Ok(LhsShape::Unsupported(str_to_owned(
                    "fixed multi-symbol LHS Range (self-overlapping, e.g. `a a`) — needs the NotLeftmost filter, not built here",
                )))
            } else {
                Ok(LhsShape::Unsupported(str_to_owned(
                    "multi-atom variable-length LHS Range (e.g. `a b+`, unequal alternation)",
                )))
            }
        },
    }
}

/// A literal's characters, with `<bdy>` and the transparent markers
/// skippable between them.
fn literal_fst_transparent(s: &str, alpha: &mut PhonruleAlphabet, transparent: &Vec<Label>) -> (f: Fst)
    requires
        old(alpha).wf(),
    ensures
        f.wf(),
        alphabet_extends(*old(alpha), *final(alpha)),
        chars_known(*final(alpha), s@),
        s@.len() == 0 ==> is_loop_machine(f, Seq::<(Label, Label)>::empty()),
        s@.len() > 0 ==> is_skip_chain(f, char_labels(*final(alpha), s@), seq![BOUNDARY_LABEL] + transparent@),
{
    let labels = literal_labels(s, alpha);
    let ghost skips = seq![BOUNDARY_LABEL] + transparent@;
    let mut b = super::super::machine::builder();
    let start = b.add_state();
    let _ = b.set_start(start);
    let mut prev = start;
    let mut i: usize = 0;
    while i < labels.len()
        invariant
            b.fst.wf(),
            skips == seq![BOUNDARY_LABEL] + transparent@,
            prev == i,
            b.fst.n() == i + 1,
            b.fst.start == Some(0usize),
            forall|q: int| 0 <= q < b.fst.n() ==> !#[trigger] b.fst.is_final(q),
            forall|q: int| 0 <= q < i ==> #[trigger] b.fst.rows()[q] == chain_row(labels@, skips, q),
            b.fst.rows()[i as int] == Seq::<Arc>::empty(),
            i <= labels@.len(),
        decreases labels@.len() - i,
    {
        let ghost f0 = b.fst;
        if i > 0 {
            let _ = b.add_arc(prev, BOUNDARY_LABEL, BOUNDARY_LABEL, prev);
            let mut j: usize = 0;
            while j < transparent.len()
                invariant
                    b.fst.wf(),
                    0 < i < labels@.len(),
                    prev == i,
                    b.fst.n() == i + 1,
                    b.fst.start == Some(0usize),
                    b.fst.finals@ == f0.finals@,
                    forall|q: int| 0 <= q < i ==> #[trigger] b.fst.rows()[q] == f0.rows()[q],
                    b.fst.rows()[i as int] == skip_loops(seq![BOUNDARY_LABEL] + transparent@.take(j as int), i as int),
                    j <= transparent@.len(),
                decreases transparent@.len() - j,
            {
                let _ = b.add_arc(prev, transparent[j], transparent[j], prev);
                proof {
                    assert(seq![BOUNDARY_LABEL] + transparent@.take(j + 1) =~= (seq![BOUNDARY_LABEL] + transparent@.take(j as int)).push(transparent@[j as int]));
                    assert(b.fst.rows()[i as int] =~= skip_loops(seq![BOUNDARY_LABEL] + transparent@.take(j + 1), i as int));
                }
                j = j + 1;
            }
            proof {
                assert(transparent@.take(transparent@.len() as int) =~= transparent@);
            }
        }
        let ghost f1 = b.fst;
        let next = b.add_state();
        let ghost f4 = b.fst;
        let _ = b.add_arc(prev, labels[i], labels[i], next);
        proof {
            assert forall|q: int| 0 <= q < b.fst.n() implies !#[trigger] b.fst.is_final(q) by {
                assert(b.fst.finals@ == f4.finals@);
                if q < i + 1 {
                    assert(!f0.is_final(q));
                }
            }
            assert forall|q: int| 0 <= q < i + 1 implies #[trigger] b.fst.rows()[q] == chain_row(labels@, skips, q) by {
                if q < i {
                    assert(b.fst.rows()[q] == f0.rows()[q]);
                } else {
                    assert(b.fst.rows()[q] =~= chain_row(labels@, skips, q));
                }
            }
        }
        prev = next;
        i = i + 1;
    }
    let ghost f3 = b.fst;
    let _ = b.set_final(prev);
    proof {
        assert(b.fst.rows() == f3.rows());
        assert forall|q: int| 0 <= q < b.fst.n() implies #[trigger] b.fst.is_final(q) == (q == labels@.len()) by {
            if q != prev {
                assert(!f3.is_final(q));
            }
        }
    }
    match b.finish() {
        Ok(f) => f,
        Err(_) => super::super::machine::empty_machine(),
    }
}

/// One of `<bdy>`, `<^>`, `<$>`.
fn boundary_union_fst() -> (f: Fst)
    ensures
        f.wf(),
        is_step_machine(f, identity_pairs(seq![BOUNDARY_LABEL, WORD_START_LABEL, WORD_END_LABEL])),
{
    proof {
        assert(identity_pairs(seq![BOUNDARY_LABEL, WORD_START_LABEL, WORD_END_LABEL]) =~= seq![
            (BOUNDARY_LABEL, BOUNDARY_LABEL),
            (WORD_START_LABEL, WORD_START_LABEL),
            (WORD_END_LABEL, WORD_END_LABEL),
        ]);
    }
    step_machine(&vec![
        (BOUNDARY_LABEL, BOUNDARY_LABEL),
        (WORD_START_LABEL, WORD_START_LABEL),
        (WORD_END_LABEL, WORD_END_LABEL),
    ])
}

/// A base-first run of `min..=max` copies of `base` (`max` unbounded when
/// `None`), copies separated by `inter`: `base (inter base){lo..}` with
/// `lo = min - 1` (zero when `min` is zero), made optional when `min` is
/// zero; the empty string alone for `0..=0`.
pub open spec fn runs_of(f: Fst, base: Fst, inter: Fst, min: u32, max: Option<u32>) -> bool {
    let lo: int = if min > 0 { min - 1 } else { 0 };
    if min == 0 && max == Some(0u32) {
        is_loop_machine(f, Seq::<(Label, Label)>::empty())
    } else {
        exists|tail: Fst, rep: Fst, one: Fst|
            #![trigger concats(tail, inter, base), concats(one, base, rep)]
            {
                &&& concats(tail, inter, base)
                &&& match max {
                    None => if lo > 0 {
                        exists|head: Fst, st: Fst|
                            #![trigger concats(rep, head, st)]
                            repeats(head, tail, lo, lo) && stars(st, tail) && concats(rep, head, st)
                    } else {
                        stars(rep, tail)
                    },
                    Some(hi) => repeats(rep, tail, lo, hi - 1),
                }
                &&& concats(one, base, rep)
                &&& if min == 0 { optionals(f, one) } else { f == one }
            }
    }
}

fn run_of(base: &Fst, inter: &Fst, min: u32, max: Option<u32>) -> (r: Result<Fst, DirectedReplaceError>)
    requires
        base.wf(),
        inter.wf(),
        max matches Some(hi) ==> min <= hi,
    ensures
        r matches Ok(f) && f.wf() && runs_of(f, *base, *inter, min, max),
        r matches Ok(f) ==> exists|tail: Fst|
            #![trigger concats(tail, *inter, *base)]
            concats(tail, *inter, *base) && runs_copies_of(f, *base, tail, min as int, max),
{
    let tail = concat(inter, base);
    if min == 0 && max == Some(0u32) {
        let f = epsilon_machine();
        proof {
            lemma_no_runs(f, *base, tail);
        }
        return Ok(f);
    }
    let lo: u32 = if min > 0 { min - 1 } else { 0 };
    let ghost mut qr: Quantifier = Quantifier::Star;
    let tail_rep = match max {
        None => {
            if lo > 0 {
                let head = match closure_bounded(&tail, lo, lo) {
                    Ok(h) => h,
                    Err(_) => {
                        return Err(be("closure_bounded failed"));
                    },
                };
                let st = closure_star(&tail);
                let rep = concat(&head, &st);
                proof {
                    assert(concats(rep, head, st));
                    lemma_at_least_copies(rep, tail, head, st, lo);
                    qr = Quantifier::AtLeast(lo);
                }
                rep
            } else {
                let rep = closure_star(&tail);
                proof {
                    lemma_star_copies(rep, tail, Quantifier::AtLeast(0));
                    qr = Quantifier::AtLeast(0);
                }
                rep
            }
        },
        Some(hi) => match closure_bounded(&tail, lo, hi - 1) {
            Ok(t) => {
                proof {
                    lemma_repeats_copies(t, tail, Quantifier::Range(lo, (hi - 1) as u32), lo as int, hi - 1);
                    qr = Quantifier::Range(lo, (hi - 1) as u32);
                }
                t
            },
            Err(_) => {
                return Err(be("closure_bounded failed"));
            },
        },
    };
    let one_or_more = concat(base, &tail_rep);
    proof {
        assert(concats(tail, *inter, *base) && concats(one_or_more, *base, tail_rep));
        assert forall|k: int| 0 <= k implies (#[trigger] copies_allowed(qr, k) <==> copies_between(min as int, max, k + 1)) by {
        }
    }
    if min == 0 {
        let f = closure_optional(&one_or_more);
        proof {
            lemma_runs_copies(f, one_or_more, *base, tail_rep, tail, qr, min as int, max);
        }
        Ok(f)
    } else {
        proof {
            lemma_runs_copies(one_or_more, one_or_more, *base, tail_rep, tail, qr, min as int, max);
        }
        Ok(one_or_more)
    }
}

/// The fewest copies a quantifier allows.
pub open spec fn quant_min(q: Quantifier) -> int {
    match q {
        Quantifier::Exact(n) => n as int,
        Quantifier::Star => 0,
        Quantifier::Plus => 1,
        Quantifier::Question => 0,
        Quantifier::AtLeast(n) => n as int,
        Quantifier::Range(n, _) => n as int,
    }
}

/// The most copies a quantifier allows, if it bounds them.
pub open spec fn quant_max(q: Quantifier) -> Option<u32> {
    match q {
        Quantifier::Exact(n) => Some(n),
        Quantifier::Star => None,
        Quantifier::Plus => None,
        Quantifier::Question => Some(1u32),
        Quantifier::AtLeast(_) => None,
        Quantifier::Range(_, m) => Some(m),
    }
}

/// `f` is `base` under the quantifier (see [`apply_quantifier`]), with
/// `inter` between copies.
pub open spec fn quantified_over(f: Fst, base: Fst, inter: Fst, quant: Quantifier, base_first: bool) -> bool {
    if base_first {
        match quant {
            Quantifier::Exact(n) => if n == 1 {
                f == base
            } else if n == 0 {
                is_loop_machine(f, Seq::<(Label, Label)>::empty())
            } else {
                runs_of(f, base, inter, n, Some(n))
            },
            Quantifier::Star => runs_of(f, base, inter, 0, None),
            Quantifier::Plus => runs_of(f, base, inter, 1, None),
            Quantifier::Question => runs_of(f, base, inter, 0, Some(1u32)),
            Quantifier::AtLeast(n) => runs_of(f, base, inter, n, None),
            Quantifier::Range(n, m) => runs_of(f, base, inter, n, Some(m)),
        }
    } else {
        exists|unit: Fst|
            #![trigger concats(unit, inter, base)]
            concats(unit, inter, base) && match quant {
                Quantifier::Exact(n) => if n == 1 {
                    f == base
                } else if n == 0 {
                    is_loop_machine(f, Seq::<(Label, Label)>::empty())
                } else {
                    repeats(f, unit, n as int, n as int)
                },
                Quantifier::Star => stars(f, unit),
                Quantifier::Plus => pluses(f, unit),
                Quantifier::Question => optionals(f, base),
                Quantifier::AtLeast(n) => if n == 0 {
                    stars(f, unit)
                } else {
                    exists|head: Fst, st: Fst|
                        #![trigger concats(f, head, st)]
                        repeats(head, unit, n as int, n as int) && stars(st, unit) && concats(f, head, st)
                },
                Quantifier::Range(n, m) => repeats(f, unit, n as int, m as int),
            }
    }
}

/// Wrap an atom acceptor with its quantifier, so that it reads as many
/// copies of the atom as the quantifier allows. Base-first runs (for the
/// left-hand side) have no skip at either edge: a first copy, then each
/// further copy after a skip over `<bdy>` and the transparent labels.
/// Skip-first runs (for contexts) put that skip before every copy, except
/// that `?` and `{1}` take the atom alone: the empty string or one copy,
/// and exactly one copy.
fn apply_quantifier(base: Fst, quant: Quantifier, transparent: &Vec<Label>, base_first: bool) -> (r: Result<Fst, DirectedReplaceError>)
    requires
        base.wf(),
        quant matches Quantifier::Range(n, m) ==> n <= m,
    ensures
        r matches Ok(f) && f.wf() && exists|inter: Fst|
            #![trigger is_loop_machine(inter, identity_pairs(seq![BOUNDARY_LABEL] + transparent@))]
            is_loop_machine(inter, identity_pairs(seq![BOUNDARY_LABEL] + transparent@)) && quantified_over(
                f,
                base,
                inter,
                quant,
                base_first,
            ),
        !base_first && quant is Question ==> (r matches Ok(f) && forall|x: Seq<Label>, y: Seq<Label>|
            #[trigger] accepts(f, x, y) <==> ((x.len() == 0 && y.len() == 0) || accepts(base, x, y))),
        quant == Quantifier::Exact(1) ==> (r matches Ok(f) && f == base),
        base_first && quant != Quantifier::Exact(1) ==> (r matches Ok(f) && exists|inter: Fst, tail: Fst|
            #![trigger concats(tail, inter, base), runs_copies_of(f, base, tail, quant_min(quant), quant_max(quant))]
            is_loop_machine(inter, identity_pairs(seq![BOUNDARY_LABEL] + transparent@)) && concats(tail, inter, base)
                && runs_copies_of(f, base, tail, quant_min(quant), quant_max(quant))),
        !base_first && !(quant is Question) && quant != Quantifier::Exact(1) ==> (r matches Ok(f) && exists|inter: Fst, unit: Fst|
            #![trigger concats(unit, inter, base), copies_of(f, unit, quant)]
            is_loop_machine(inter, identity_pairs(seq![BOUNDARY_LABEL] + transparent@)) && concats(unit, inter, base)
                && copies_of(f, unit, quant)),
{
    let mut bm: Vec<Label> = vec![BOUNDARY_LABEL];
    append_labels(&mut bm, transparent);
    let inter = star_over(&bm);
    proof {
        assert(bm@ =~= seq![BOUNDARY_LABEL] + transparent@);
    }
    if base_first {
        if let Quantifier::Exact(1) = quant {
            return Ok(base);
        }
        let (min, max): (u32, Option<u32>) = match quant {
            Quantifier::Exact(n) => (n, Some(n)),
            Quantifier::Star => (0, None),
            Quantifier::Plus => (1, None),
            Quantifier::Question => (0, Some(1u32)),
            Quantifier::AtLeast(n) => (n, None),
            Quantifier::Range(n, m) => (n, Some(m)),
        };
        let res = run_of(&base, &inter, min, max);
        proof {
            assert(min as int == quant_min(quant) && max == quant_max(quant));
            let f = res->Ok_0;
            let tail = choose|tail: Fst|
                #![trigger concats(tail, inter, base)]
                concats(tail, inter, base) && runs_copies_of(f, base, tail, min as int, max);
            assert(concats(tail, inter, base) && runs_copies_of(f, base, tail, quant_min(quant), quant_max(quant)));
        }
        res
    } else {
        let unit = concat(&inter, &base);
        proof {
            assert(concats(unit, inter, base));
        }
        match quant {
            Quantifier::Exact(n) => {
                if n == 1 {
                    Ok(base)
                } else if n == 0 {
                    let f = epsilon_machine();
                    proof {
                        lemma_none_copies(f, unit);
                    }
                    Ok(f)
                } else {
                    match closure_bounded(&unit, n, n) {
                        Ok(f) => {
                            proof {
                                lemma_repeats_copies(f, unit, quant, n as int, n as int);
                            }
                            Ok(f)
                        },
                        Err(_) => Err(be("closure_bounded failed")),
                    }
                }
            },
            Quantifier::Star => {
                let f = closure_star(&unit);
                proof {
                    lemma_star_copies(f, unit, quant);
                }
                Ok(f)
            },
            Quantifier::Plus => {
                let f = closure_plus(&unit);
                proof {
                    lemma_plus_copies(f, unit);
                }
                Ok(f)
            },
            Quantifier::Question => {
                let f = closure_optional(&base);
                proof {
                    lemma_optional_all(base, f);
                }
                Ok(f)
            },
            Quantifier::AtLeast(n) => {
                let star = closure_star(&unit);
                if n == 0 {
                    proof {
                        lemma_star_copies(star, unit, quant);
                    }
                    Ok(star)
                } else {
                    match closure_bounded(&unit, n, n) {
                        Ok(head) => {
                            let f = concat(&head, &star);
                            proof {
                                assert(concats(f, head, star));
                                lemma_at_least_copies(f, unit, head, star, n);
                            }
                            Ok(f)
                        },
                        Err(_) => Err(be("closure_bounded failed")),
                    }
                }
            },
            Quantifier::Range(n, m) => match closure_bounded(&unit, n, m) {
                Ok(f) => {
                    proof {
                        lemma_repeats_copies(f, unit, quant, n as int, m as int);
                    }
                    Ok(f)
                },
                Err(_) => Err(be("closure_bounded failed")),
            },
        }
    }
}

/// Some alphabet between `a0` and `a1`.
pub open spec fn between(a0: PhonruleAlphabet, a: PhonruleAlphabet, a1: PhonruleAlphabet) -> bool {
    alphabet_extends(a0, a) && alphabet_extends(a, a1)
}

/// `f` is the machine [`context_elem_fst`] builds for `e`, the alphabet
/// growing from `a0` to `a1`: the stream markers as themselves; an atom's
/// base machine (a class's or complement's member symbols, a literal's
/// characters with `<bdy>*` between them, any Σ symbol, the union of an
/// alternation's arms in order) under its quantifier, with `<bdy>` and the
/// `tr` labels skippable between copies.
pub open spec fn elem_fst_of(
    f: Fst,
    e: PhonContextElem,
    a0: PhonruleAlphabet,
    a1: PhonruleAlphabet,
    table: ClassMembers,
    tr: Seq<Label>,
    bf: bool,
) -> bool
    decreases e, 1int, 0int,
{
    match e {
        PhonContextElem::Boundary => is_step_machine(f, identity_pairs(seq![BOUNDARY_LABEL, WORD_START_LABEL, WORD_END_LABEL])),
        PhonContextElem::WordStart => is_step_machine(f, seq![(WORD_START_LABEL, WORD_START_LABEL)]),
        PhonContextElem::WordEnd => is_step_machine(f, seq![(WORD_END_LABEL, WORD_END_LABEL)]),
        PhonContextElem::Atom(atom, q) => exists|base: Fst, inter: Fst|
            #![trigger quantified_over(f, base, inter, q, bf)]
            {
                &&& is_loop_machine(inter, identity_pairs(seq![BOUNDARY_LABEL] + tr))
                &&& quantified_over(f, base, inter, q, bf)
                &&& match atom {
                    PhonAtom::Class(n) => table.spec_get(n.node@) is Some && is_step_machine(
                        base,
                        identity_pairs(member_labels(a1, table.spec_get(n.node@)->0)),
                    ),
                    PhonAtom::NegClass(n) => table.spec_get(n.node@) is Some && exists|a: PhonruleAlphabet|
                        #![trigger between(a0, a, a1)]
                        between(a0, a, a1) && is_step_machine(
                            base,
                            identity_pairs(a.sigma_seq().filter(
                                |l: Label| !member_labels(a1, table.spec_get(n.node@)->0).contains(l),
                            )),
                        ),
                    PhonAtom::Literal(lit) => chars_known(a1, lit.node@) && (lit.node@.len() == 0 ==> is_loop_machine(
                        base,
                        Seq::<(Label, Label)>::empty(),
                    )) && (lit.node@.len() > 0 ==> is_skip_chain(base, char_labels(a1, lit.node@), seq![BOUNDARY_LABEL])),
                    PhonAtom::Wildcard => exists|a: PhonruleAlphabet|
                        #![trigger between(a0, a, a1)]
                        between(a0, a, a1) && is_step_machine(base, identity_pairs(a.sigma_seq())),
                    PhonAtom::Alt(alts) => alt_fst_of(base, e, alts@, a0, a1, table, tr, bf),
                    PhonAtom::SylBlock(_) => false,
                }
            },
        _ => false,
    }
}

/// The base machine of an alternation: the empty language without arms,
/// else the union of its arms' machines in order.
pub open spec fn alt_fst_of(
    base: Fst,
    e: PhonContextElem,
    alts: Seq<PhonContextElem>,
    a0: PhonruleAlphabet,
    a1: PhonruleAlphabet,
    table: ClassMembers,
    tr: Seq<Label>,
    bf: bool,
) -> bool
    decreases e, 0int, alts.len() + 1,
{
    if alts.len() == 0 {
        is_step_machine(base, identity_pairs(Seq::<Label>::empty()))
    } else {
        exists|ms: Seq<Fst>, accs: Seq<Fst>, als: Seq<PhonruleAlphabet>|
            #![trigger union_fold(base, ms, accs), als.len()]
            {
                &&& ms.len() == alts.len()
                &&& als.len() == alts.len() + 1
                &&& als[0] == a0
                &&& als.last() == a1
                &&& union_fold(base, ms, accs)
                &&& arms_fst_upto(e, alts, ms, als, table, tr, bf, alts.len() as int)
            }
    }
}

/// `base` is the left-to-right union of `ms` (`accs` the running unions).
pub open spec fn union_fold(base: Fst, ms: Seq<Fst>, accs: Seq<Fst>) -> bool {
    &&& ms.len() > 0
    &&& accs.len() == ms.len()
    &&& accs[0] == ms[0]
    &&& forall|i: int| 1 <= i < ms.len() ==> unites(#[trigger] accs[i], accs[i - 1], ms[i])
    &&& base == accs.last()
}

/// The first `k` arms of `parent` were built as [`elem_fst_of`] describes,
/// arm `i` growing the alphabet from `als[i]` to `als[i + 1]`.
pub open spec fn arms_fst_upto(
    parent: PhonContextElem,
    alts: Seq<PhonContextElem>,
    ms: Seq<Fst>,
    als: Seq<PhonruleAlphabet>,
    table: ClassMembers,
    tr: Seq<Label>,
    bf: bool,
    k: int,
) -> bool
    decreases parent, 0int, k,
{
    if k <= 0 || k > alts.len() || k > ms.len() || k + 1 > als.len() {
        k <= 0
    } else {
        &&& arms_fst_upto(parent, alts, ms, als, table, tr, bf, k - 1)
        &&& if decreases_to!(parent => alts[k - 1]) {
            elem_fst_of(ms[k - 1], alts[k - 1], als[k - 1], als[k], table, tr, bf)
        } else {
            true
        }
    }
}

/// Lengthening the machine and alphabet lists keeps what their first
/// entries say.
proof fn lemma_arms_prefix(
    parent: PhonContextElem,
    alts: Seq<PhonContextElem>,
    ms: Seq<Fst>,
    als: Seq<PhonruleAlphabet>,
    ms2: Seq<Fst>,
    als2: Seq<PhonruleAlphabet>,
    table: ClassMembers,
    tr: Seq<Label>,
    bf: bool,
    k: int,
)
    requires
        0 <= k <= ms.len() <= ms2.len(),
        k + 1 <= als.len() <= als2.len(),
        k <= alts.len(),
        forall|i: int| 0 <= i < ms.len() ==> ms2[i] == ms[i],
        forall|i: int| 0 <= i < als.len() ==> als2[i] == als[i],
        arms_fst_upto(parent, alts, ms, als, table, tr, bf, k),
    ensures
        arms_fst_upto(parent, alts, ms2, als2, table, tr, bf, k),
    decreases k,
{
    if k > 0 {
        lemma_arms_prefix(parent, alts, ms, als, ms2, als2, table, tr, bf, k - 1);
    }
}

/// The element compiles in the directed construction: it holds no
/// syllable element, and every class it names is in `table`.
pub open spec fn dr_elem_ok(e: PhonContextElem, table: ClassMembers) -> bool
    decreases e, 1int, 0int,
{
    match e {
        PhonContextElem::Boundary | PhonContextElem::WordStart | PhonContextElem::WordEnd => true,
        PhonContextElem::Atom(atom, _) => match atom {
            PhonAtom::Class(n) => table.spec_get(n.node@) is Some,
            PhonAtom::NegClass(n) => table.spec_get(n.node@) is Some,
            PhonAtom::Literal(_) | PhonAtom::Wildcard => true,
            PhonAtom::Alt(alts) => dr_elems_ok_upto(e, alts@, alts@.len() as int, table),
            PhonAtom::SylBlock(_) => false,
        },
        _ => false,
    }
}

/// [`dr_elem_ok`] for the first `k` alternatives of `parent`.
pub open spec fn dr_elems_ok_upto(parent: PhonContextElem, s: Seq<PhonContextElem>, k: int, table: ClassMembers) -> bool
    decreases parent, 0int, k,
{
    if k <= 0 || k > s.len() {
        true
    } else {
        &&& dr_elems_ok_upto(parent, s, k - 1, table)
        &&& if decreases_to!(parent => s[k - 1]) {
            dr_elem_ok(s[k - 1], table)
        } else {
            true
        }
    }
}

/// Every element of the sequence compiles in the directed construction.
pub open spec fn dr_seq_ok(s: Seq<PhonContextElem>, table: ClassMembers) -> bool {
    forall|i: int| 0 <= i < s.len() ==> dr_elem_ok(#[trigger] s[i], table)
}

proof fn lemma_dr_upto(e: PhonContextElem, s: Seq<PhonContextElem>, k: int, table: ClassMembers)
    requires
        0 <= k <= s.len(),
        forall|i: int| 0 <= i < s.len() ==> decreases_to!(e => #[trigger] s[i]),
    ensures
        dr_elems_ok_upto(e, s, k, table) <==> forall|i: int| 0 <= i < k ==> dr_elem_ok(#[trigger] s[i], table),
    decreases k,
{
    if k > 0 {
        lemma_dr_upto(e, s, k - 1, table);
        assert(decreases_to!(e => s[k - 1]));
    }
}

/// An alternation compiles exactly when each alternative does.
proof fn lemma_dr_alt(alts: Vec<PhonContextElem>, q: Quantifier, table: ClassMembers)
    ensures
        dr_elem_ok(PhonContextElem::Atom(PhonAtom::Alt(alts), q), table) <==> dr_seq_ok(alts@, table),
{
    let e = PhonContextElem::Atom(PhonAtom::Alt(alts), q);
    let a = PhonAtom::Alt(alts);
    assert forall|i: int| 0 <= i < alts@.len() implies decreases_to!(e => #[trigger] alts@[i]) by {
        assert(decreases_to!(e => e->Atom_0));
        assert(e->Atom_0 == a);
        assert(decreases_to!(a => a->Alt_0));
        assert(decreases_to!(alts => alts@));
        assert(decreases_to!(alts@ => alts@[i]));
    }
    lemma_dr_upto(e, alts@, alts@.len() as int, table);
}

/// Compile one context element over Σ_b and the transparent markers.
fn context_elem_fst(
    elem: &PhonContextElem,
    alpha: &mut PhonruleAlphabet,
    class_table: &ClassMembers,
    transparent: &Vec<Label>,
    base_first: bool,
) -> (r: Result<Fst, DirectedReplaceError>)
    requires
        old(alpha).wf(),
        elem_bounds_ok(*elem),
    ensures
        alphabet_extends(*old(alpha), *final(alpha)),
        r matches Ok(f) ==> f.wf() && elem_fst_of(f, *elem, *old(alpha), *final(alpha), *class_table, transparent@, base_first),
        r matches Err(DirectedReplaceError::UnknownClass(n)) ==> class_table.spec_get(n@) is None,
        !(r matches Err(DirectedReplaceError::UnknownMap(_))),
        r is Ok <==> dr_elem_ok(*elem, *class_table),
        r matches Err(e) ==> (e is UnknownClass || e is UnsupportedShape),
    decreases elem,
{
    proof {
        lemma_extends_refl(*alpha);
    }
    match elem {
        PhonContextElem::Boundary => Ok(boundary_union_fst()),
        PhonContextElem::WordStart => Ok(single_arc(WORD_START_LABEL, WORD_START_LABEL)),
        PhonContextElem::WordEnd => Ok(single_arc(WORD_END_LABEL, WORD_END_LABEL)),
        PhonContextElem::SylHead => Err(DirectedReplaceError::UnsupportedShape(str_to_owned("%syl<head>% context"))),
        PhonContextElem::SylTail => Err(DirectedReplaceError::UnsupportedShape(str_to_owned("%syl<tail>% context"))),
        PhonContextElem::SylIndex(_) => Err(DirectedReplaceError::UnsupportedShape(str_to_owned("%syl<#N>% context"))),
        PhonContextElem::Atom(atom, quant) => {
            let ghost a0 = *alpha;
            let base = match atom {
                PhonAtom::Class(name) => {
                    let labels = class_member_labels(name.node.as_str(), alpha, class_table)?;
                    step_over(&labels)
                },
                PhonAtom::NegClass(name) => {
                    let members = class_member_labels(name.node.as_str(), alpha, class_table)?;
                    let b = step_over(&sigma_minus(alpha, &members));
                    proof {
                        lemma_extends_refl(*alpha);
                        assert(between(a0, *alpha, *alpha));
                    }
                    b
                },
                PhonAtom::Literal(lit) => {
                    let empty: Vec<Label> = Vec::new();
                    let b = literal_fst_transparent(lit.node.as_str(), alpha, &empty);
                    proof {
                        assert(seq![BOUNDARY_LABEL] + empty@ =~= seq![BOUNDARY_LABEL]);
                    }
                    b
                },
                PhonAtom::Wildcard => {
                    let b = step_over(&alpha.sigma());
                    proof {
                        lemma_extends_refl(*alpha);
                        assert(between(a0, *alpha, *alpha));
                    }
                    b
                },
                PhonAtom::Alt(alts) => {
                    proof {
                        super::context::lemma_alt_bounds(*alts, *quant);
                        lemma_dr_alt(*alts, *quant, *class_table);
                    }
                    if alts.len() == 0 {
                        let none: Vec<Label> = Vec::new();
                        proof {
                            assert(none@ =~= Seq::<Label>::empty());
                        }
                        step_over(&none)
                    } else {
                        proof {
                            assert(decreases_to!(*elem => elem->Atom_0));
                            assert(decreases_to!(*atom => atom->Alt_0));
                            assert(decreases_to!(*alts => alts@));
                            assert(decreases_to!(alts@ => alts@[0]));
                        }
                        let first = context_elem_fst(&alts[0], alpha, class_table, transparent, base_first)?;
                        let ghost mut ms: Seq<Fst> = seq![first];
                        let ghost mut accs: Seq<Fst> = seq![first];
                        let ghost mut als: Seq<PhonruleAlphabet> = seq![a0, *alpha];
                        let mut acc = first;
                        proof {
                            assert(decreases_to!(*elem => alts@[0]));
                            assert(arms_fst_upto(*elem, alts@, ms, als, *class_table, transparent@, base_first, 0));
                            assert(elem_fst_of(ms[0], alts@[0], als[0], als[1], *class_table, transparent@, base_first));
                            assert(arms_fst_upto(*elem, alts@, ms, als, *class_table, transparent@, base_first, 1));
                        }
                        let mut i: usize = 1;
                        while i < alts.len()
                            invariant
                                1 <= i <= alts@.len(),
                                acc.wf(),
                                a0.wf(),
                                a0 == *old(alpha),
                                alphabet_extends(a0, *alpha),
                                seq_bounds_ok(alts@),
                                *elem == PhonContextElem::Atom(PhonAtom::Alt(*alts), *quant),
                                ms.len() == i,
                                als.len() == i + 1,
                                als[0] == a0,
                                als.last() == *alpha,
                                union_fold(acc, ms, accs),
                                arms_fst_upto(*elem, alts@, ms, als, *class_table, transparent@, base_first, i as int),
                                forall|j: int| 0 <= j < i ==> dr_elem_ok(#[trigger] alts@[j], *class_table),
                                dr_elem_ok(*elem, *class_table) <==> dr_seq_ok(alts@, *class_table),
                            decreases alts@.len() - i,
                        {
                            proof {
                                assert(elem_bounds_ok(alts@[i as int]));
                                assert(decreases_to!(*elem => elem->Atom_0));
                                assert(decreases_to!(elem->Atom_0 => elem->Atom_0->Alt_0));
                                assert(decreases_to!(*alts => alts@));
                                assert(decreases_to!(alts@ => alts@[i as int]));
                            }
                            let ghost a1 = *alpha;
                            let res = context_elem_fst(&alts[i], alpha, class_table, transparent, base_first);
                            proof {
                                lemma_extends_trans(a0, a1, *alpha);
                            }
                            let next = match res {
                                Ok(f) => f,
                                Err(e) => {
                                    return Err(e);
                                },
                            };
                            let nacc = union(&acc, &next);
                            proof {
                                let ms2 = ms.push(next);
                                let als2 = als.push(*alpha);
                                lemma_arms_prefix(*elem, alts@, ms, als, ms2, als2, *class_table, transparent@, base_first, i as int);
                                assert(decreases_to!(*elem => alts@[i as int]));
                                assert(ms2[i as int] == next && als2[i as int] == a1 && als2[i + 1] == *alpha);
                                assert(arms_fst_upto(*elem, alts@, ms2, als2, *class_table, transparent@, base_first, i + 1));
                                let accs2 = accs.push(nacc);
                                assert(union_fold(nacc, ms2, accs2)) by {
                                    assert forall|j: int| 1 <= j < ms2.len() implies unites(#[trigger] accs2[j], accs2[j - 1], ms2[j]) by {
                                        if j < i {
                                            assert(accs2[j] == accs[j] && accs2[j - 1] == accs[j - 1] && ms2[j] == ms[j]);
                                        }
                                    }
                                }
                                ms = ms2;
                                als = als2;
                                accs = accs2;
                            }
                            acc = nacc;
                            i = i + 1;
                        }
                        proof {
                            assert(alt_fst_of(acc, *elem, alts@, a0, *alpha, *class_table, transparent@, base_first));
                        }
                        acc
                    }
                },
                PhonAtom::SylBlock(_) => {
                    return Err(DirectedReplaceError::UnsupportedShape(str_to_owned("%syl[ ... ]% atom")));
                },
            };
            apply_quantifier(base, *quant, transparent, base_first)
        },
    }
}

/// The leading edge is sealed.
spec fn seals_lead(seal: Seal) -> bool {
    seal == Seal::Leading || seal == Seal::Both
}

/// The trailing edge is sealed.
spec fn seals_trail(seal: Seal) -> bool {
    seal == Seal::Trailing || seal == Seal::Both
}

/// The labels of the leading skip.
spec fn lead_labels(seal: Seal, tr: Seq<Label>) -> Seq<Label> {
    if seals_lead(seal) { seq![BOUNDARY_LABEL, BRACKET_OPEN_OBLIG_LABEL] } else { seq![BOUNDARY_LABEL] + tr }
}

/// The labels of the trailing skip.
spec fn trail_labels(seal: Seal, tr: Seq<Label>) -> Seq<Label> {
    if seals_trail(seal) { seq![BOUNDARY_LABEL, BRACKET_CLOSE_OBLIG_LABEL] } else { seq![BOUNDARY_LABEL] + tr }
}

/// The skip placed before element `i` (of `n`), if any.
spec fn pre_of(e: PhonContextElem, i: int, n: int, seal: Seal, surround: bool, tr: Seq<Label>) -> Option<Seq<Label>> {
    let seal_this = seals_trail(seal) && i == n - 1;
    let seal_first = seals_lead(seal) && !surround && i == 0;
    let is_atom = e is Atom;
    let pre = if is_atom {
        Some(if seal_this || seal_first { seq![BOUNDARY_LABEL, BRACKET_CLOSE_OBLIG_LABEL] } else { seq![BOUNDARY_LABEL] + tr })
    } else if seal_this || seal_first {
        Some(seq![BRACKET_CLOSE_OBLIG_LABEL])
    } else if tr.len() > 0 {
        Some(tr)
    } else {
        None
    };
    match pre {
        None => None,
        Some(ls) => if !(surround && i == 0) {
            Some(ls)
        } else if seals_lead(seal) && is_atom {
            Some(seq![BOUNDARY_LABEL])
        } else {
            None
        },
    }
}

/// The parts concatenated for the first `k` elements: the leading skip
/// when `surround`, then for each element its skip, if any, and its
/// machine. `(true, _, i)` stands for element `i`'s machine, `(false, ls,
/// _)` for the loop on `ls`.
spec fn seq_kinds(elems: Seq<PhonContextElem>, seal: Seal, surround: bool, tr: Seq<Label>, k: int) -> Seq<(bool, Seq<Label>, int)>
    decreases k,
{
    if k <= 0 {
        if surround { seq![(false, lead_labels(seal, tr), 0int)] } else { Seq::empty() }
    } else {
        let prev = seq_kinds(elems, seal, surround, tr, k - 1);
        let with_pre = match pre_of(elems[k - 1], k - 1, elems.len() as int, seal, surround, tr) {
            Some(ls) => prev.push((false, ls, k - 1)),
            None => prev,
        };
        with_pre.push((true, Seq::<Label>::empty(), k - 1))
    }
}

/// All the parts: those of every element, then the trailing skip when
/// `surround`.
spec fn all_kinds(elems: Seq<PhonContextElem>, seal: Seal, surround: bool, tr: Seq<Label>) -> Seq<(bool, Seq<Label>, int)> {
    seq_kinds(elems, seal, surround, tr, elems.len() as int) + (if surround {
        seq![(false, trail_labels(seal, tr), 0int)]
    } else {
        Seq::empty()
    })
}

/// `f` is the left-to-right concatenation of `parts` (`accs` the running
/// concatenations).
pub open spec fn concat_fold(f: Fst, parts: Seq<Fst>, accs: Seq<Fst>) -> bool {
    &&& parts.len() > 0
    &&& accs.len() == parts.len()
    &&& accs[0] == parts[0]
    &&& forall|j: int| 1 <= j < parts.len() ==> concats(#[trigger] accs[j], accs[j - 1], parts[j])
    &&& f == accs.last()
}

/// Each part is what its kind says: a skip loop, or element `i`'s machine.
pub open spec fn parts_match(parts: Seq<Fst>, kinds: Seq<(bool, Seq<Label>, int)>, ms: Seq<Fst>) -> bool {
    &&& parts.len() == kinds.len()
    &&& forall|j: int| 0 <= j < parts.len() ==> if (#[trigger] kinds[j]).0 {
        0 <= kinds[j].2 < ms.len() && parts[j] == ms[kinds[j].2]
    } else {
        is_loop_machine(parts[j], identity_pairs(kinds[j].1))
    }
}

/// `f` is the machine [`context_sequence_fst_inner`] builds: without
/// elements, the empty string or (with `surround`) one skip loop; else the
/// concatenation of the parts [`seq_kinds`] lists, with the trailing skip
/// at the end when `surround`, each element's machine as
/// [`elem_fst_of`] describes (the alphabet growing through `als`).
spec fn seq_fst_of(
    f: Fst,
    elems: Seq<PhonContextElem>,
    a0: PhonruleAlphabet,
    a1: PhonruleAlphabet,
    table: ClassMembers,
    tr: Seq<Label>,
    seal: Seal,
    surround: bool,
) -> bool {
    if elems.len() == 0 {
        if !surround {
            is_loop_machine(f, Seq::<(Label, Label)>::empty())
        } else {
            is_loop_machine(f, identity_pairs(if seals_lead(seal) { lead_labels(seal, tr) } else { trail_labels(seal, tr) }))
        }
    } else {
        exists|parts: Seq<Fst>, accs: Seq<Fst>, ms: Seq<Fst>, als: Seq<PhonruleAlphabet>|
            #![trigger concat_fold(f, parts, accs), parts_match(parts, all_kinds(elems, seal, surround, tr), ms), als.len()]
            {
                &&& concat_fold(f, parts, accs)
                &&& parts_match(parts, all_kinds(elems, seal, surround, tr), ms)
                &&& ms.len() == elems.len()
                &&& als.len() == elems.len() + 1
                &&& als[0] == a0
                &&& als.last() == a1
                &&& forall|i: int| 0 <= i < elems.len() ==> elem_fst_of(#[trigger] ms[i], elems[i], als[i], als[i + 1], table, tr, !surround)
            }
    }
}

/// Compile a context (or left-hand-side) element sequence over Σ_b with
/// `<bdy>` skippable before every atom and the transparent markers
/// skippable everywhere except at sealed edges; `surround` adds leading
/// and trailing skips.
fn context_sequence_fst_inner(
    elems: &Vec<PhonContextElem>,
    alpha: &mut PhonruleAlphabet,
    class_table: &ClassMembers,
    transparent: &Vec<Label>,
    seal: Seal,
    surround: bool,
) -> (r: Result<Fst, DirectedReplaceError>)
    requires
        old(alpha).wf(),
        seq_bounds_ok(elems@),
    ensures
        alphabet_extends(*old(alpha), *final(alpha)),
        r matches Ok(f) ==> f.wf() && seq_fst_of(f, elems@, *old(alpha), *final(alpha), *class_table, transparent@, seal, surround),
        r matches Err(DirectedReplaceError::UnknownClass(n)) ==> class_table.spec_get(n@) is None,
        !(r matches Err(DirectedReplaceError::UnknownMap(_))),
        r is Ok <==> dr_seq_ok(elems@, *class_table),
        r matches Err(e) ==> (e is UnknownClass || e is UnsupportedShape),
{
    proof {
        lemma_extends_refl(*alpha);
    }
    let ghost tr = transparent@;
    let mut bm: Vec<Label> = vec![BOUNDARY_LABEL];
    append_labels(&mut bm, transparent);
    let lead_sealed = seal == Seal::Leading || seal == Seal::Both;
    let trail_sealed = seal == Seal::Trailing || seal == Seal::Both;
    let trail_seal_labels: Vec<Label> = vec![BOUNDARY_LABEL, BRACKET_CLOSE_OBLIG_LABEL];
    let lead_seal_labels: Vec<Label> = vec![BOUNDARY_LABEL, BRACKET_OPEN_OBLIG_LABEL];
    let lead_first_seal_labels: Vec<Label> = vec![BOUNDARY_LABEL, BRACKET_CLOSE_OBLIG_LABEL];
    let close_only: Vec<Label> = vec![BRACKET_CLOSE_OBLIG_LABEL];
    let bdy_only: Vec<Label> = vec![BOUNDARY_LABEL];
    proof {
        assert(bm@ =~= seq![BOUNDARY_LABEL] + tr);
        assert(trail_seal_labels@ =~= seq![BOUNDARY_LABEL, BRACKET_CLOSE_OBLIG_LABEL]);
        assert(lead_seal_labels@ =~= seq![BOUNDARY_LABEL, BRACKET_OPEN_OBLIG_LABEL]);
        assert(lead_first_seal_labels@ =~= seq![BOUNDARY_LABEL, BRACKET_CLOSE_OBLIG_LABEL]);
        assert(close_only@ =~= seq![BRACKET_CLOSE_OBLIG_LABEL]);
        assert(bdy_only@ =~= seq![BOUNDARY_LABEL]);
        assert(lead_sealed == seals_lead(seal));
        assert(trail_sealed == seals_trail(seal));
    }
    let lead_skip = if lead_sealed { star_over(&lead_seal_labels) } else { star_over(&bm) };
    let trail_skip = if trail_sealed { star_over(&trail_seal_labels) } else { star_over(&bm) };
    if elems.len() == 0 {
        if !surround {
            return Ok(epsilon_machine());
        }
        return Ok(if lead_sealed { lead_skip } else { trail_skip });
    }
    let ghost a0 = *alpha;
    let mut acc: Option<Fst> = if surround { Some(lead_skip) } else { None };
    let ghost mut parts: Seq<Fst> = if surround { seq![lead_skip] } else { Seq::empty() };
    let ghost mut accs: Seq<Fst> = parts;
    let ghost mut ms: Seq<Fst> = Seq::empty();
    let ghost mut als: Seq<PhonruleAlphabet> = seq![a0];
    let last = elems.len() - 1;
    let base_first = !surround;
    let mut i: usize = 0;
    while i < elems.len()
        invariant
            i <= elems@.len(),
            elems@.len() > 0,
            last == elems@.len() - 1,
            a0.wf(),
            a0 == *old(alpha),
            alphabet_extends(a0, *alpha),
            seq_bounds_ok(elems@),
            tr == transparent@,
            base_first == !surround,
            bm@ == seq![BOUNDARY_LABEL] + tr,
            trail_seal_labels@ == seq![BOUNDARY_LABEL, BRACKET_CLOSE_OBLIG_LABEL],
            lead_first_seal_labels@ == seq![BOUNDARY_LABEL, BRACKET_CLOSE_OBLIG_LABEL],
            close_only@ == seq![BRACKET_CLOSE_OBLIG_LABEL],
            bdy_only@ == seq![BOUNDARY_LABEL],
            lead_sealed == seals_lead(seal),
            trail_sealed == seals_trail(seal),
            acc matches Some(f) ==> f.wf(),
            parts_match(parts, seq_kinds(elems@, seal, surround, tr, i as int), ms),
            ms.len() == i,
            als.len() == i + 1,
            als[0] == a0,
            als.last() == *alpha,
            forall|k: int| 0 <= k < i ==> elem_fst_of(#[trigger] ms[k], elems@[k], als[k], als[k + 1], *class_table, tr, !surround),
            parts.len() == 0 <==> acc is None,
            parts.len() > 0 ==> (acc matches Some(a) && concat_fold(a, parts, accs)),
            surround ==> parts.len() > 0,
            i > 0 ==> parts.len() > 0,
            surround ==> is_loop_machine(lead_skip, identity_pairs(lead_labels(seal, tr))),
            forall|k: int| 0 <= k < i ==> dr_elem_ok(#[trigger] elems@[k], *class_table),
        decreases elems@.len() - i,
    {
        proof {
            assert(elem_bounds_ok(elems@[i as int]));
        }
        let ghost a1 = *alpha;
        let res = context_elem_fst(&elems[i], alpha, class_table, transparent, base_first);
        proof {
            lemma_extends_trans(a0, a1, *alpha);
        }
        let piece = match res {
            Ok(f) => f,
            Err(e) => {
                proof {
                    assert(!dr_elem_ok(elems@[i as int], *class_table));
                }
                return Err(e);
            },
        };
        let seal_this_pre = trail_sealed && i == last;
        let seal_first_pre = lead_sealed && !surround && i == 0;
        let is_atom = match &elems[i] {
            PhonContextElem::Atom(_, _) => true,
            _ => false,
        };
        let pre: Option<Fst> = if is_atom {
            if seal_this_pre {
                Some(star_over(&trail_seal_labels))
            } else if seal_first_pre {
                Some(star_over(&lead_first_seal_labels))
            } else {
                Some(star_over(&bm))
            }
        } else if seal_this_pre || seal_first_pre {
            Some(star_over(&close_only))
        } else if transparent.len() > 0 {
            Some(star_over(transparent))
        } else {
            None
        };
        let ghost kinds0 = seq_kinds(elems@, seal, surround, tr, i as int);
        let ghost po = pre_of(elems@[i as int], i as int, elems@.len() as int, seal, surround, tr);
        let ghost parts0 = parts;
        let ghost accs0 = accs;
        match pre {
            Some(p) => {
                if !(surround && i == 0) {
                    let nacc = match acc {
                        None => p,
                        Some(a) => concat(&a, &p),
                    };
                    proof {
                        assert(po == Some(if is_atom { if seal_this_pre || seal_first_pre { seq![BOUNDARY_LABEL, BRACKET_CLOSE_OBLIG_LABEL] } else { seq![BOUNDARY_LABEL] + tr } } else if seal_this_pre || seal_first_pre { seq![BRACKET_CLOSE_OBLIG_LABEL] } else { tr }));
                        assert(is_loop_machine(p, identity_pairs(po->0)));
                        parts = parts.push(p);
                        accs = if parts0.len() == 0 { seq![p] } else { accs.push(nacc) };
                    }
                    acc = Some(nacc);
                } else if lead_sealed && is_atom {
                    let bskip = star_over(&bdy_only);
                    let nacc = match acc {
                        None => bskip,
                        Some(a) => concat(&a, &bskip),
                    };
                    proof {
                        assert(po == Some(seq![BOUNDARY_LABEL]));
                        parts = parts.push(bskip);
                        accs = if parts0.len() == 0 { seq![bskip] } else { accs.push(nacc) };
                    }
                    acc = Some(nacc);
                } else {
                    proof {
                        assert(po is None);
                    }
                }
            },
            None => {
                proof {
                    assert(po is None);
                }
            },
        }
        let ghost parts1 = parts;
        let ghost accs1 = accs;
        let nacc = match acc {
            None => piece,
            Some(a) => concat(&a, &piece),
        };
        proof {
            let mut_ms = ms.push(piece);
            parts = parts.push(piece);
            accs = if parts1.len() == 0 { seq![piece] } else { accs.push(nacc) };
            ms = mut_ms;
            als = als.push(*alpha);
            let kinds1 = seq_kinds(elems@, seal, surround, tr, i + 1);
            assert(kinds1 == (match po { Some(ls) => kinds0.push((false, ls, i as int)), None => kinds0 }).push((true, Seq::<Label>::empty(), i as int)));
            assert(parts_match(parts, kinds1, ms)) by {
                assert forall|j: int| 0 <= j < parts.len() implies if (#[trigger] kinds1[j]).0 {
                    0 <= kinds1[j].2 < ms.len() && parts[j] == ms[kinds1[j].2]
                } else {
                    is_loop_machine(parts[j], identity_pairs(kinds1[j].1))
                } by {
                    if j < parts0.len() {
                        assert(kinds1[j] == kinds0[j]);
                        assert(parts[j] == parts0[j]);
                        if kinds0[j].0 {
                            assert(ms[kinds0[j].2] == ms.drop_last()[kinds0[j].2]);
                        }
                    }
                }
            }
            assert forall|k: int| 0 <= k < i + 1 implies elem_fst_of(#[trigger] ms[k], elems@[k], als[k], als[k + 1], *class_table, tr, !surround) by {
                if k < i {
                    assert(ms[k] == ms.drop_last()[k]);
                    assert(als[k] == als.drop_last()[k] && als[k + 1] == als.drop_last()[k + 1]);
                }
            }
            assert(concat_fold(nacc, parts, accs)) by {
                assert forall|j: int| 1 <= j < parts.len() implies concats(#[trigger] accs[j], accs[j - 1], parts[j]) by {
                    if j < parts1.len() {
                        assert(accs[j] == accs1[j] && accs[j - 1] == accs1[j - 1] && parts[j] == parts1[j]);
                        if j < parts0.len() {
                            assert(accs1[j] == accs0[j] && accs1[j - 1] == accs0[j - 1] && parts1[j] == parts0[j]);
                        }
                    }
                }
            }
        }
        acc = Some(nacc);
        i = i + 1;
    }
    let acc = match acc {
        Some(a) => a,
        None => epsilon_machine(),
    };
    if surround {
        let f = concat(&acc, &trail_skip);
        proof {
            let kinds = all_kinds(elems@, seal, surround, tr);
            let parts2 = parts.push(trail_skip);
            let accs2 = accs.push(f);
            assert(parts_match(parts2, kinds, ms)) by {
                assert forall|j: int| 0 <= j < parts2.len() implies if (#[trigger] kinds[j]).0 {
                    0 <= kinds[j].2 < ms.len() && parts2[j] == ms[kinds[j].2]
                } else {
                    is_loop_machine(parts2[j], identity_pairs(kinds[j].1))
                } by {
                    if j < parts.len() {
                        assert(kinds[j] == seq_kinds(elems@, seal, surround, tr, elems@.len() as int)[j]);
                        assert(parts2[j] == parts[j]);
                    }
                }
            }
            assert(concat_fold(f, parts2, accs2)) by {
                assert forall|j: int| 1 <= j < parts2.len() implies concats(#[trigger] accs2[j], accs2[j - 1], parts2[j]) by {
                    if j < parts.len() {
                        assert(accs2[j] == accs[j] && accs2[j - 1] == accs[j - 1] && parts2[j] == parts[j]);
                    }
                }
            }
        }
        Ok(f)
    } else {
        proof {
            assert(all_kinds(elems@, seal, surround, tr) =~= seq_kinds(elems@, seal, surround, tr, elems@.len() as int));
        }
        Ok(acc)
    }
}

/// The left-hand side as an acceptor over Σ_b (brackets transparent in
/// its interior when `transparent` lists them).
/// The classes a left-hand side names are in `table` (and an element
/// sequence holds no syllable element).
pub open spec fn lhs_classes_known(pat: PhonPattern, table: ClassMembers) -> bool {
    &&& (pat is Class ==> table.spec_get(pat->Class_0.node@) is Some)
    &&& (pat is Range ==> dr_seq_ok(pat->Range_0@, table))
}

/// Every class the rule names, in its left-hand side and its contexts, is
/// in `table`, and its contexts hold no syllable element.
pub open spec fn directed_known(rule: PhonRewriteRule, table: ClassMembers) -> bool {
    &&& lhs_classes_known(rule.from, table)
    &&& dr_seq_ok(rule_contexts(rule).0, table)
    &&& dr_seq_ok(rule_contexts(rule).1, table)
}

/// `f` is the acceptor [`lhs_fst`] builds for `pat` with the `tr` labels
/// transparent, the alphabet growing from `a0` to `a1`: a non-empty
/// literal's characters with `<bdy>` and `tr` skippable between them, one
/// member symbol of a class, or an element sequence sealed at both ends.
spec fn lhs_fst_of(f: Fst, pat: PhonPattern, a0: PhonruleAlphabet, a1: PhonruleAlphabet, table: ClassMembers, tr: Seq<Label>) -> bool {
    match pat {
        PhonPattern::Literal(s) => s.node@.len() > 0 && is_skip_chain(f, char_labels(a1, s.node@), seq![BOUNDARY_LABEL] + tr),
        PhonPattern::Class(n) => table.spec_get(n.node@) is Some && is_step_machine(
            f,
            identity_pairs(member_labels(a1, table.spec_get(n.node@)->0)),
        ),
        PhonPattern::Range(elems) => seq_fst_of(f, elems@, a0, a1, table, tr, Seal::Both, false),
    }
}

fn lhs_fst(pat: &PhonPattern, alpha: &mut PhonruleAlphabet, class_table: &ClassMembers, transparent: &Vec<Label>) -> (r: Result<Fst, DirectedReplaceError>)
    requires
        old(alpha).wf(),
        pattern_bounds_ok(*pat),
    ensures
        alphabet_extends(*old(alpha), *final(alpha)),
        r matches Ok(f) ==> f.wf(),
        (pat is Literal && pat->Literal_0.node@.len() == 0) ==> (r is Err && r->Err_0 is UnsupportedShape),
        (pat is Class && class_table.spec_get(pat->Class_0.node@) is None) ==> (r is Err && r->Err_0 is UnknownClass),
        r matches Err(DirectedReplaceError::UnknownClass(n)) ==> class_table.spec_get(n@) is None,
        !(r matches Err(DirectedReplaceError::UnknownMap(_))),
        r matches Ok(f) ==> lhs_fst_of(f, *pat, *old(alpha), *final(alpha), *class_table, transparent@),
        r matches Err(e) ==> (e is UnsupportedShape || (e is UnknownClass && !lhs_classes_known(*pat, *class_table))),
{
    proof {
        lemma_extends_refl(*alpha);
    }
    match pat {
        PhonPattern::Literal(s) => {
            if str_chars(s.node.as_str()).len() == 0 {
                return Err(DirectedReplaceError::UnsupportedShape(str_to_owned("empty-LHS insertion rule (\"\" -> X)")));
            }
            Ok(literal_fst_transparent(s.node.as_str(), alpha, transparent))
        },
        PhonPattern::Class(name) => {
            let labels = class_member_labels(name.node.as_str(), alpha, class_table)?;
            Ok(step_over(&labels))
        },
        PhonPattern::Range(elems) => context_sequence_fst_inner(elems, alpha, class_table, transparent, Seal::Both, false),
    }
}

/// Reads anything of Σ, the stream markers and the brackets, writes
/// nothing.
fn build_eraser(alpha: &PhonruleAlphabet) -> (f: Fst)
    ensures
        f.wf(),
        is_loop_machine(f, erase_pairs(alpha.sigma_seq() + seq![
            BOUNDARY_LABEL,
            WORD_START_LABEL,
            WORD_END_LABEL,
            BRACKET_OPEN_OBLIG_LABEL,
            BRACKET_CLOSE_OBLIG_LABEL,
        ])),
{
    let sigma = alpha.sigma();
    let mut pairs: Vec<(Label, Label)> = Vec::new();
    let mut i: usize = 0;
    while i < sigma.len()
        invariant
            i <= sigma@.len(),
            pairs@ == erase_pairs(sigma@.take(i as int)),
        decreases sigma@.len() - i,
    {
        pairs.push((sigma[i], EPS_LABEL));
        proof {
            assert(erase_pairs(sigma@.take(i + 1)) =~= erase_pairs(sigma@.take(i as int)).push((sigma@[i as int], EPS_LABEL)));
        }
        i = i + 1;
    }
    pairs.push((BOUNDARY_LABEL, EPS_LABEL));
    pairs.push((WORD_START_LABEL, EPS_LABEL));
    pairs.push((WORD_END_LABEL, EPS_LABEL));
    pairs.push((BRACKET_OPEN_OBLIG_LABEL, EPS_LABEL));
    pairs.push((BRACKET_CLOSE_OBLIG_LABEL, EPS_LABEL));
    proof {
        assert(sigma@.take(sigma@.len() as int) =~= sigma@);
        assert(pairs@ =~= erase_pairs(alpha.sigma_seq() + seq![
            BOUNDARY_LABEL,
            WORD_START_LABEL,
            WORD_END_LABEL,
            BRACKET_OPEN_OBLIG_LABEL,
            BRACKET_CLOSE_OBLIG_LABEL,
        ]));
    }
    loop_machine(&pairs)
}

/// Each label read, nothing written.
pub open spec fn erase_pairs(labels: Seq<Label>) -> Seq<(Label, Label)> {
    labels.map_values(|l: Label| (l, EPS_LABEL))
}

/// The `LHS:RHS` core: the left-hand side read, the right-hand side
/// written.
/// `e` erases every symbol of Σ (of `a`), the stream markers and both
/// brackets.
spec fn is_eraser(e: Fst, a: PhonruleAlphabet) -> bool {
    is_loop_machine(e, erase_pairs(a.sigma_seq() + seq![
        BOUNDARY_LABEL,
        WORD_START_LABEL,
        WORD_END_LABEL,
        BRACKET_OPEN_OBLIG_LABEL,
        BRACKET_CLOSE_OBLIG_LABEL,
    ]))
}

/// `f` is the replacement core [`build_replace_core`] builds, the alphabet
/// growing from `a0` to `a1`: what `lhs` accepts, erased, then for a
/// literal right-hand side its characters written; for a map call, `lhs`
/// composed with any number of the map's steps.
spec fn replace_core_of(f: Fst, lhs: Fst, rhs: PhonReplacement, a0: PhonruleAlphabet, a1: PhonruleAlphabet, map_table: FstTable) -> bool {
    match rhs {
        PhonReplacement::Null => exists|e: Fst| #![trigger composed(f, lhs, e)] is_eraser(e, a0) && composed(f, lhs, e),
        PhonReplacement::Literal(lit) => exists|e: Fst, li: Fst, ch: Fst|
            #![trigger composed(li, lhs, e), concats(f, li, ch)]
            {
                &&& is_eraser(e, a0)
                &&& composed(li, lhs, e)
                &&& is_chain_machine(ch, Seq::new(lit.node@.len(), |i: int| EPS_LABEL), char_labels(a1, lit.node@))
                &&& concats(f, li, ch)
            },
        PhonReplacement::MapCall(id) => map_table.spec_get(id.node@) is Some && exists|st: Fst|
            #![trigger stars(st, map_table.spec_get(id.node@)->0)]
            stars(st, map_table.spec_get(id.node@)->0) && composed(f, lhs, st),
    }
}

fn build_replace_core(lhs_acceptor: &Fst, rhs: &PhonReplacement, alpha: &mut PhonruleAlphabet, map_table: &FstTable) -> (r: Result<Fst, DirectedReplaceError>)
    requires
        old(alpha).wf(),
        lhs_acceptor.wf(),
        map_table.wf(),
    ensures
        alphabet_extends(*old(alpha), *final(alpha)),
        r matches Ok(f) ==> f.wf(),
        r is Err <==> (rhs matches PhonReplacement::MapCall(id) && map_table.spec_get(id.node@) is None),
        r matches Err(e) ==> (e matches DirectedReplaceError::UnknownMap(n) && map_table.spec_get(n@) is None),
        r matches Ok(f) ==> replace_core_of(f, *lhs_acceptor, *rhs, *old(alpha), *final(alpha), *map_table),
{
    proof {
        lemma_extends_refl(*alpha);
    }
    match rhs {
        PhonReplacement::Null => {
            let e = build_eraser(alpha);
            let f = compose_sorted(lhs_acceptor, &e);
            proof {
                assert(composed(f, *lhs_acceptor, e));
            }
            Ok(f)
        },
        PhonReplacement::Literal(lit) => {
            let e = build_eraser(alpha);
            let lhs_in = compose_sorted(lhs_acceptor, &e);
            let labels = literal_labels(lit.node.as_str(), alpha);
            let mut eps: Vec<Label> = Vec::new();
            let mut i: usize = 0;
            while i < labels.len()
                invariant
                    i <= labels@.len(),
                    eps@.len() == i,
                    forall|j: int| 0 <= j < i ==> eps@[j] == EPS_LABEL,
                decreases labels@.len() - i,
            {
                eps.push(EPS_LABEL);
                i = i + 1;
            }
            let ch = chain_machine(&eps, &labels);
            let f = concat(&lhs_in, &ch);
            proof {
                assert(eps@ =~= Seq::new(lit.node@.len(), |i: int| EPS_LABEL));
                assert(composed(lhs_in, *lhs_acceptor, e));
                assert(concats(f, lhs_in, ch));
            }
            Ok(f)
        },
        PhonReplacement::MapCall(map_ident) => {
            let map_fst = match map_table.get(map_ident.node.as_str()) {
                Some(f) => f,
                None => {
                    return Err(DirectedReplaceError::UnknownMap(map_ident.node.clone()));
                },
            };
            proof {
                map_table.lemma_get_wf(map_ident.node@);
            }
            let map_star = closure_star(map_fst);
            let f = compose_sorted(lhs_acceptor, &map_star);
            proof {
                assert(stars(map_star, map_table.spec_get(map_ident.node@)->0));
                assert(composed(f, *lhs_acceptor, map_star));
            }
            Ok(f)
        },
    }
}

/// The pieces of the construction.
struct BuiltPieces {
    upper: Fst,
    replace_core: Fst,
    lhs_brk: Fst,
    left_brk: Fst,
    right_brk: Fst,
    left_brk_sealed: Fst,
    right_brk_sealed_lead: Fst,
    shape: LhsShape,
}

impl BuiltPieces {
    spec fn wf(&self) -> bool {
        &&& self.upper.wf()
        &&& self.replace_core.wf()
        &&& self.lhs_brk.wf()
        &&& self.left_brk.wf()
        &&& self.right_brk.wf()
        &&& self.left_brk_sealed.wf()
        &&& self.right_brk_sealed_lead.wf()
    }
}

/// Left-hand sides the directed construction always refuses: the empty
/// literal, and an element sequence that is not a single atom.
pub open spec fn unsupported_lhs(p: PhonPattern) -> bool {
    ||| (p is Literal && p->Literal_0.node@.len() == 0)
    ||| (p is Range && (p->Range_0@.len() != 1 || !(p->Range_0@[0] is Atom)))
}

/// A one-atom left-hand side the directed construction refuses: an
/// alternation or syllable block, or a class-free atom under a quantifier
/// that is neither one fixed count nor an unbounded run from at most one
/// (such as `a{2,3}`).
pub open spec fn single_atom_refused(p: PhonPattern) -> bool {
    &&& p is Range
    &&& p->Range_0@.len() == 1
    &&& p->Range_0@[0] is Atom
    &&& {
        let atom = p->Range_0@[0]->Atom_0;
        let q = p->Range_0@[0]->Atom_1;
        ||| atom is Alt
        ||| atom is SylBlock
        ||| ((atom is Literal || atom is Wildcard) && !quant_is_fixed(q) && !quant_is_run(q))
    }
}

/// The rule's context elements have ordered bounds.
pub open spec fn rule_bounds_ok(rule: PhonRewriteRule) -> bool {
    &&& pattern_bounds_ok(rule.from)
    &&& (rule.context matches Some(ctx) ==> seq_bounds_ok(ctx.left@) && seq_bounds_ok(ctx.right@))
}

/// The rule's left and right context elements (none without a context).
pub open spec fn rule_contexts(rule: PhonRewriteRule) -> (Seq<PhonContextElem>, Seq<PhonContextElem>) {
    match rule.context {
        Some(ctx) => (ctx.left@, ctx.right@),
        None => (Seq::empty(), Seq::empty()),
    }
}

/// `g` maps what some machine [`context_sequence_fst_inner`] builds for
/// `elems` maps, the alphabet growing within `a0..a1`.
spec fn context_piece(
    g: Fst,
    elems: Seq<PhonContextElem>,
    a0: PhonruleAlphabet,
    a1: PhonruleAlphabet,
    table: ClassMembers,
    tr: Seq<Label>,
    seal: Seal,
) -> bool {
    exists|h: Fst, b0: PhonruleAlphabet, b1: PhonruleAlphabet|
        #![trigger seq_fst_of(h, elems, b0, b1, table, tr, seal, true)]
        {
            &&& alphabet_extends(a0, b0)
            &&& alphabet_extends(b1, a1)
            &&& seq_fst_of(h, elems, b0, b1, table, tr, seal, true)
            &&& same_lang(g, h)
        }
}

/// `g` maps what some machine [`lhs_fst`] builds for `pat` maps, the
/// alphabet growing within `a0..a1`.
spec fn lhs_piece(g: Fst, pat: PhonPattern, a0: PhonruleAlphabet, a1: PhonruleAlphabet, table: ClassMembers, tr: Seq<Label>) -> bool {
    exists|h: Fst, b0: PhonruleAlphabet, b1: PhonruleAlphabet|
        #![trigger lhs_fst_of(h, pat, b0, b1, table, tr)]
        {
            &&& alphabet_extends(a0, b0)
            &&& alphabet_extends(b1, a1)
            &&& lhs_fst_of(h, pat, b0, b1, table, tr)
            &&& same_lang(g, h)
        }
}

/// The left-hand-side pieces were built from the rule's left-hand side
/// (plain, and with both brackets transparent) and the context pieces from
/// its contexts: both contexts
/// with the brackets skippable, and the left one sealed at its end, the
/// right one at its start.
spec fn pieces_from_rule(
    p: BuiltPieces,
    rule: PhonRewriteRule,
    a0: PhonruleAlphabet,
    a1: PhonruleAlphabet,
    table: ClassMembers,
    map_table: FstTable,
) -> bool {
    &&& (rule.from is Literal || rule.from is Class) ==> p.shape is Fixed
    &&& exists|b: PhonruleAlphabet|
        #![trigger between(a0, b, a1)]
        between(a0, b, a1) && single_atom_lhs(rule.from, b, table, Ok::<LhsShape, DirectedReplaceError>(p.shape))
    &&& lhs_piece(p.upper, rule.from, a0, a1, table, Seq::empty())
    &&& exists|b0: PhonruleAlphabet, b1: PhonruleAlphabet|
        #![trigger replace_core_of(p.replace_core, p.upper, rule.to, b0, b1, map_table)]
        alphabet_extends(a0, b0) && alphabet_extends(b1, a1) && replace_core_of(p.replace_core, p.upper, rule.to, b0, b1, map_table)
    &&& lhs_piece(p.lhs_brk, rule.from, a0, a1, table, seq![BRACKET_OPEN_OBLIG_LABEL, BRACKET_CLOSE_OBLIG_LABEL])
    &&& context_piece(p.left_brk, rule_contexts(rule).0, a0, a1, table, seq![BRACKET_OPEN_OBLIG_LABEL, BRACKET_CLOSE_OBLIG_LABEL], Seal::Unsealed)
    &&& context_piece(p.right_brk, rule_contexts(rule).1, a0, a1, table, seq![BRACKET_OPEN_OBLIG_LABEL, BRACKET_CLOSE_OBLIG_LABEL], Seal::Unsealed)
    &&& context_piece(p.left_brk_sealed, rule_contexts(rule).0, a0, a1, table, seq![BRACKET_OPEN_OBLIG_LABEL, BRACKET_CLOSE_OBLIG_LABEL], Seal::Trailing)
    &&& context_piece(p.right_brk_sealed_lead, rule_contexts(rule).1, a0, a1, table, seq![BRACKET_OPEN_OBLIG_LABEL, BRACKET_CLOSE_OBLIG_LABEL], Seal::Leading)
}

fn build_upper_and_replace_core(
    rule: &PhonRewriteRule,
    alpha: &mut PhonruleAlphabet,
    class_table: &ClassMembers,
    map_table: &FstTable,
) -> (r: Result<BuiltPieces, DirectedReplaceError>)
    requires
        old(alpha).wf(),
        map_table.wf(),
        rule_bounds_ok(*rule),
    ensures
        alphabet_extends(*old(alpha), *final(alpha)),
        r matches Ok(p) ==> p.wf() && pieces_from_rule(p, *rule, *old(alpha), *final(alpha), *class_table, *map_table),
        rule.from matches PhonPattern::Literal(l) && self_overlaps(l.node@) ==> r matches Err(
            DirectedReplaceError::UnsupportedShape(_),
        ),
        unsupported_lhs(rule.from) ==> (r is Err && r->Err_0 is UnsupportedShape),
        single_atom_refused(rule.from) ==> (r is Err && r->Err_0 is UnsupportedShape),
        (rule.from is Class && class_table.spec_get(rule.from->Class_0.node@) is None) ==> (r is Err && r->Err_0 is UnknownClass),
        r matches Err(DirectedReplaceError::UnknownClass(n)) ==> class_table.spec_get(n@) is None,
        r matches Err(DirectedReplaceError::UnknownMap(n)) ==> map_table.spec_get(n@) is None,
        r matches Err(e) ==> (e is UnsupportedShape || (e is UnknownClass && !directed_known(*rule, *class_table)) || (
        e is UnknownMap && map_missing(rule.to, *map_table))),
{
    proof {
        lemma_extends_refl(*alpha);
    }
    let ghost a0 = *alpha;
    let shape = classify_lhs(&rule.from, alpha, class_table)?;
    match &shape {
        LhsShape::Unsupported(why) => {
            return Err(DirectedReplaceError::UnsupportedShape(why.clone()));
        },
        _ => {},
    }
    let ghost a1 = *alpha;
    let empty: Vec<Label> = Vec::new();
    let r1 = lhs_fst(&rule.from, alpha, class_table, &empty);
    let ghost a2 = *alpha;
    proof {
        lemma_extends_trans(a0, a1, a2);
    }
    let lhs_acceptor = match r1 {
        Ok(f) => f,
        Err(e) => {
            return Err(e);
        },
    };
    let r2 = build_replace_core(&lhs_acceptor, &rule.to, alpha, map_table);
    let ghost a3 = *alpha;
    proof {
        lemma_extends_trans(a0, a2, a3);
    }
    let replace_core = match r2 {
        Ok(f) => f,
        Err(e) => {
            return Err(e);
        },
    };
    let brk: Vec<Label> = vec![BRACKET_OPEN_OBLIG_LABEL, BRACKET_CLOSE_OBLIG_LABEL];
    let r3 = lhs_fst(&rule.from, alpha, class_table, &brk);
    let ghost a4 = *alpha;
    proof {
        lemma_extends_trans(a0, a3, a4);
    }
    let lhs_brk = match r3 {
        Ok(f) => f,
        Err(e) => {
            return Err(e);
        },
    };
    let no_elems: Vec<PhonContextElem> = Vec::new();
    let (l, r): (&Vec<PhonContextElem>, &Vec<PhonContextElem>) = match &rule.context {
        None => (&no_elems, &no_elems),
        Some(ctx) => (&ctx.left, &ctx.right),
    };
    let r4 = context_sequence_fst_inner(l, alpha, class_table, &brk, Seal::Unsealed, true);
    let ghost a5 = *alpha;
    proof {
        lemma_extends_trans(a0, a4, a5);
    }
    let left_brk = match r4 {
        Ok(f) => f,
        Err(e) => {
            return Err(e);
        },
    };
    let r5 = context_sequence_fst_inner(r, alpha, class_table, &brk, Seal::Unsealed, true);
    let ghost a6 = *alpha;
    proof {
        lemma_extends_trans(a0, a5, a6);
    }
    let right_brk = match r5 {
        Ok(f) => f,
        Err(e) => {
            return Err(e);
        },
    };
    let r6 = context_sequence_fst_inner(l, alpha, class_table, &brk, Seal::Trailing, true);
    let ghost a7 = *alpha;
    proof {
        lemma_extends_trans(a0, a6, a7);
    }
    let left_brk_sealed = match r6 {
        Ok(f) => f,
        Err(e) => {
            return Err(e);
        },
    };
    let r7 = context_sequence_fst_inner(r, alpha, class_table, &brk, Seal::Leading, true);
    proof {
        lemma_extends_trans(a0, a7, *alpha);
    }
    let right_brk_sealed_lead = match r7 {
        Ok(f) => f,
        Err(e) => {
            return Err(e);
        },
    };
    let p = BuiltPieces {
        upper: lhs_acceptor,
        replace_core,
        lhs_brk: det_min(&lhs_brk)?,
        left_brk: det_min(&left_brk)?,
        right_brk: det_min(&right_brk)?,
        left_brk_sealed: det_min(&left_brk_sealed)?,
        right_brk_sealed_lead: det_min(&right_brk_sealed_lead)?,
        shape,
    };
    proof {
        let tr = seq![BRACKET_OPEN_OBLIG_LABEL, BRACKET_CLOSE_OBLIG_LABEL];
        assert(brk@ == tr);
        assert(l@ == rule_contexts(*rule).0 && r@ == rule_contexts(*rule).1);
        lemma_extends_trans(a0, a4, a5);
        lemma_extends_trans(a0, a5, a6);
        lemma_extends_trans(a0, a6, a7);
        lemma_extends_trans(a5, a6, *alpha);
        lemma_extends_trans(a5, a7, *alpha);
        lemma_extends_trans(a6, a7, *alpha);
        lemma_extends_trans(a4, a5, *alpha);
        lemma_extends_refl(*alpha);
        lemma_extends_trans(a1, a2, *alpha);
        lemma_extends_trans(a3, a4, *alpha);
        lemma_extends_trans(a0, a1, a2);
        lemma_extends_trans(a0, a2, a3);
        assert(empty@ =~= Seq::<Label>::empty());
        lemma_extends_trans(a1, a2, *alpha);
        assert(between(a0, a1, *alpha));
        assert(single_atom_lhs(rule.from, a1, *class_table, Ok::<LhsShape, DirectedReplaceError>(p.shape)));
        assert(lhs_fst_of(lhs_acceptor, rule.from, a1, a2, *class_table, empty@));
        assert(replace_core_of(replace_core, lhs_acceptor, rule.to, a2, a3, *map_table));
        assert(alphabet_extends(a0, a2) && alphabet_extends(a3, *alpha));
        assert(lhs_piece(p.upper, rule.from, a0, *alpha, *class_table, Seq::empty()));
        assert(lhs_fst_of(lhs_brk, rule.from, a3, a4, *class_table, tr));
        assert(lhs_piece(p.lhs_brk, rule.from, a0, *alpha, *class_table, tr));
        assert(seq_fst_of(left_brk, l@, a4, a5, *class_table, tr, Seal::Unsealed, true));
        assert(context_piece(p.left_brk, rule_contexts(*rule).0, a0, *alpha, *class_table, tr, Seal::Unsealed));
        assert(seq_fst_of(right_brk, r@, a5, a6, *class_table, tr, Seal::Unsealed, true));
        assert(context_piece(p.right_brk, rule_contexts(*rule).1, a0, *alpha, *class_table, tr, Seal::Unsealed));
        assert(seq_fst_of(left_brk_sealed, l@, a6, a7, *class_table, tr, Seal::Trailing, true));
        assert(context_piece(p.left_brk_sealed, rule_contexts(*rule).0, a0, *alpha, *class_table, tr, Seal::Trailing));
        assert(context_piece(p.right_brk_sealed_lead, rule_contexts(*rule).1, a0, *alpha, *class_table, tr, Seal::Leading));
    }
    Ok(p)
}

/// Σ_b identity plus an `ε:^` self-loop: an optional caret anywhere.
fn build_permissive_insert(m: &Markers) -> (f: Fst)
    ensures
        f.wf(),
        is_loop_machine(f, identity_pairs(m.sigma@ + m.stream@).push((EPS_LABEL, CARET_OBLIG_LABEL))),
{
    let mut pairs = id_pairs(&m.sigma_b());
    pairs.push((EPS_LABEL, CARET_OBLIG_LABEL));
    loop_machine(&pairs)
}

/// `f` is `[no-caret* ^:< upper ε:>]* no-caret*`, no-caret being any
/// label of `sm` (Σ, the stream markers and both brackets).
pub open spec fn left_to_right_of(f: Fst, sm: Seq<Label>, upper: Fst) -> bool {
    exists|nc: Fst, co: Fst, ci: Fst, e1: Fst, ev: Fst, cell: Fst, st: Fst|
        #![trigger concats(e1, co, upper), concats(ev, e1, ci), concats(cell, nc, ev), stars(st, cell), concats(f, st, nc)]
        {
            &&& is_loop_machine(nc, identity_pairs(sm))
            &&& is_step_machine(co, seq![(CARET_OBLIG_LABEL, BRACKET_OPEN_OBLIG_LABEL)])
            &&& is_step_machine(ci, seq![(EPS_LABEL, BRACKET_CLOSE_OBLIG_LABEL)])
            &&& concats(e1, co, upper)
            &&& concats(ev, e1, ci)
            &&& concats(cell, nc, ev)
            &&& stars(st, cell)
            &&& concats(f, st, nc)
        }
}

/// `[no-caret* ^:< LHS ε:>]* no-caret*`.
fn build_left_to_right(m: &Markers, upper: &Fst) -> (f: Fst)
    requires
        upper.wf(),
    ensures
        f.wf(),
        left_to_right_of(f, m.sigma@ + m.stream@ + seq![BRACKET_OPEN_OBLIG_LABEL, BRACKET_CLOSE_OBLIG_LABEL], *upper),
{
    let no_caret = star_over(&m.sigma_with_brackets());
    let caret_to_open = single_arc(CARET_OBLIG_LABEL, BRACKET_OPEN_OBLIG_LABEL);
    let close_insert = single_arc(EPS_LABEL, BRACKET_CLOSE_OBLIG_LABEL);
    let e1 = concat(&caret_to_open, upper);
    let bracket_event = concat(&e1, &close_insert);
    let cell = concat(&no_caret, &bracket_event);
    let st = closure_star(&cell);
    let f = concat(&st, &no_caret);
    proof {
        assert(concats(e1, caret_to_open, *upper) && concats(bracket_event, e1, close_insert) && concats(cell, no_caret, bracket_event) && stars(st, cell) && concats(f, st, no_caret));
    }
    f
}

/// The longest-match filter: no `<` followed by a left-hand-side reading
/// with an interior `>`.
fn build_longest_match(m: &Markers, lhs_brk: &Fst) -> (r: Result<Fst, DirectedReplaceError>)
    requires
        lhs_brk.wf(),
    ensures
        r matches Ok(f) ==> f.wf() && longest_match_of(f, m.sigma@ + m.stream@ + seq![BRACKET_OPEN_OBLIG_LABEL, BRACKET_CLOSE_OBLIG_LABEL], *lhs_brk),
        r is Ok,
{
    let sigma_m = m.sigma_with_brackets();
    let sigma_m_star = star_over(&sigma_m);
    let close_v = vec![BRACKET_CLOSE_OBLIG_LABEL];
    let open_v = vec![BRACKET_OPEN_OBLIG_LABEL];
    proof {
        assert(close_v@ =~= seq![BRACKET_CLOSE_OBLIG_LABEL]);
        assert(open_v@ =~= seq![BRACKET_OPEN_OBLIG_LABEL]);
    }
    let close_step = step_over(&close_v);
    let open_step = step_over(&open_v);
    let hc1 = concat(&sigma_m_star, &close_step);
    let has_close = concat(&hc1, &sigma_m_star);
    let lhs_min = det_min(lhs_brk)?;
    let has_close_min = det_min(&has_close)?;
    let ii = intersect(&lhs_min, &has_close_min);
    let lhs_inner = det_min(&ii)?;
    proof {
        assert(concats(hc1, sigma_m_star, close_step) && concats(has_close, hc1, sigma_m_star) && composes(lhs_min, has_close_min, ii) && same_lang(lhs_inner, ii));
        assert(same_lang(lhs_min, *lhs_brk) && same_lang(has_close_min, has_close));
    }
    if !has_accepting_state(&lhs_inner) {
        return Ok(star_over(&sigma_m));
    }
    let b1 = concat(&sigma_m_star, &open_step);
    let b2 = concat(&b1, &lhs_inner);
    let bad = concat(&b2, &sigma_m_star);
    let r = complement_over(&bad, &sigma_m);
    proof {
        assert(concats(b1, sigma_m_star, open_step) && concats(b2, b1, lhs_inner) && concats(bad, b2, sigma_m_star));
    }
    r
}

/// The two machines accept the same pairs.
pub open spec fn same_lang(f: Fst, g: Fst) -> bool {
    forall|x: Seq<Label>, y: Seq<Label>| #[trigger] accepts(f, x, y) == accepts(g, x, y)
}

/// `f` is the complement of the acceptor `a` over `alph` (when `a` is an
/// acceptor over `alph`, epsilon aside).
pub open spec fn complements(f: Fst, a: Fst, alph: Seq<Label>) -> bool {
    (is_acceptor(a) && arcs_over(a, alph) && !alph.contains(EPS_LABEL)) ==> {
        &&& forall|w: Seq<Label>| word_over(w, alph) ==> (#[trigger] accepts(f, w, w) <==> !accepts(a, w, w))
        &&& forall|x: Seq<Label>, y: Seq<Label>| #[trigger] accepts(f, x, y) ==> x == y && word_over(x, alph)
    }
}

/// The longest-match filter over `sigma_m`: with `inner` (up to its
/// language) the readings of `lhs` that hold a `>`, the identity loop on
/// `sigma_m` when `inner` accepts nothing, else the complement of
/// `Σ_M* < inner Σ_M*`.
pub open spec fn longest_match_of(f: Fst, sigma_m: Seq<Label>, lhs: Fst) -> bool {
    exists|sms: Fst, cs: Fst, hc1: Fst, hc: Fst, lm: Fst, hm: Fst, ii: Fst, li: Fst|
        #![trigger concats(hc1, sms, cs), concats(hc, hc1, sms), composes(lm, hm, ii), same_lang(li, ii)]
        {
            &&& is_loop_machine(sms, identity_pairs(sigma_m))
            &&& is_step_machine(cs, identity_pairs(seq![BRACKET_CLOSE_OBLIG_LABEL]))
            &&& concats(hc1, sms, cs)
            &&& concats(hc, hc1, sms)
            &&& same_lang(lm, lhs)
            &&& same_lang(hm, hc)
            &&& composes(lm, hm, ii)
            &&& same_lang(li, ii)
            &&& (!final_reachable(li) ==> is_loop_machine(f, identity_pairs(sigma_m)))
            &&& (final_reachable(li) ==> exists|os: Fst, b1: Fst, b2: Fst, bad: Fst|
                #![trigger concats(b1, sms, os), concats(b2, b1, li), concats(bad, b2, sms)]
                {
                    &&& is_step_machine(os, identity_pairs(seq![BRACKET_OPEN_OBLIG_LABEL]))
                    &&& concats(b1, sms, os)
                    &&& concats(b2, b1, li)
                    &&& concats(bad, b2, sms)
                    &&& complements(f, bad, sigma_m)
                })
        }
}

/// `ε ∪ (head · tail)` with `at_end` choosing `head · Σ_M*` or
/// `Σ_M* · head`, determinised.
fn optional_guard(head: &Fst, sigma_m_star: &Fst, at_end: bool) -> (r: Result<Fst, DirectedReplaceError>)
    requires
        head.wf(),
        sigma_m_star.wf(),
    ensures
        r matches Ok(f) ==> f.wf() && guarded(f, *head, *sigma_m_star, at_end),
        r is Ok,
{
    let body = if at_end { concat(sigma_m_star, head) } else { concat(head, sigma_m_star) };
    let e = epsilon_machine();
    let u = union(&e, &body);
    let r = det_min(&u);
    proof {
        assert(unites(u, e, body));
    }
    r
}

/// `f` accepts what `ε ∪ (head · tail)` accepts (`tail · head` when
/// `at_end`).
pub open spec fn guarded(f: Fst, head: Fst, tail: Fst, at_end: bool) -> bool {
    exists|e: Fst, body: Fst, u: Fst|
        #![trigger unites(u, e, body)]
        {
            &&& is_loop_machine(e, Seq::<(Label, Label)>::empty())
            &&& (if at_end { concats(body, tail, head) } else { concats(body, head, tail) })
            &&& unites(u, e, body)
            &&& same_lang(f, u)
        }
}

/// The unlicensed-occurrence guard of [`build_context_license`]: the
/// complement of the readings that bracket a licensed left-hand side
/// (a maximal run of `set` for a single-atom run, the left-hand side
/// otherwise) while the context around it is left unbracketed.
spec fn license_force(force: Fst, sm: Seq<Label>, sms: Fst, p: BuiltPieces) -> bool {
    match p.shape {
        LhsShape::SingleAtomRun { set } => exists|ss: Fst, il: Fst, cont: Fst, sc: Fst, runl: Fst, pre: Fst, pp: Fst,
            cr: Fst, dm: Fst, nc: Fst, c1: Fst, c2: Fst, ff: Fst, fnc: Fst, bf: Fst|
            #![trigger concats(cont, il, ss), stars(sc, cont), concats(runl, ss, sc), guarded(pp, pre, sms, true), concats(cr, cont, sms), complements(nc, dm, sm), concats(c1, pp, p.left_brk_sealed), concats(c2, c1, runl), concats(ff, c2, p.right_brk_sealed_lead), concats(fnc, ff, nc), complements(force, bf, sm)]
            {
                &&& is_step_machine(ss, identity_pairs(set@))
                &&& is_loop_machine(il, identity_pairs(seq![BRACKET_OPEN_OBLIG_LABEL, BRACKET_CLOSE_OBLIG_LABEL, BOUNDARY_LABEL]))
                &&& concats(cont, il, ss)
                &&& stars(sc, cont)
                &&& concats(runl, ss, sc)
                &&& is_step_machine(pre, identity_pairs(sm.filter(|l: Label| l != BRACKET_OPEN_OBLIG_LABEL && !set@.contains(l))))
                &&& guarded(pp, pre, sms, true)
                &&& concats(cr, cont, sms)
                &&& same_lang(dm, cr)
                &&& complements(nc, dm, sm)
                &&& concats(c1, pp, p.left_brk_sealed)
                &&& concats(c2, c1, runl)
                &&& concats(ff, c2, p.right_brk_sealed_lead)
                &&& concats(fnc, ff, nc)
                &&& same_lang(bf, fnc)
                &&& complements(force, bf, sm)
            },
        _ => exists|no: Fst, ncl: Fst, pno: Fst, snc: Fst, c1: Fst, c2: Fst, ff: Fst, fs: Fst, bf: Fst|
            #![trigger guarded(pno, no, sms, true), guarded(snc, ncl, sms, false), concats(c1, pno, p.left_brk_sealed), concats(c2, c1, p.lhs_brk), concats(ff, c2, p.right_brk_sealed_lead), concats(fs, ff, snc), complements(force, bf, sm)]
            {
                &&& is_step_machine(no, identity_pairs(sm.filter(|l: Label| l != BRACKET_OPEN_OBLIG_LABEL)))
                &&& is_step_machine(ncl, identity_pairs(sm.filter(|l: Label| l != BRACKET_CLOSE_OBLIG_LABEL)))
                &&& guarded(pno, no, sms, true)
                &&& guarded(snc, ncl, sms, false)
                &&& concats(c1, pno, p.left_brk_sealed)
                &&& concats(c2, c1, p.lhs_brk)
                &&& concats(ff, c2, p.right_brk_sealed_lead)
                &&& concats(fs, ff, snc)
                &&& same_lang(bf, fs)
                &&& complements(force, bf, sm)
            },
    }
}

/// The context-licensing filter over `sm`: the intersection of "every `<`
/// follows an `L` reading", "every `>` precedes an `R` reading" and
/// [`license_force`].
spec fn context_license_of(f: Fst, sm: Seq<Label>, p: BuiltPieces) -> bool {
    exists|sms: Fst, os: Fst, cs: Fst, gp: Fst, ngp: Fst, bl1: Fst, bl: Fst, ll: Fst, gs: Fst, ngs: Fst, br1: Fst,
        br: Fst, rl: Fst, force: Fst, lr: Fst|
        #![trigger concats(gp, sms, p.left_brk), complements(ngp, gp, sm), concats(bl1, ngp, os), concats(bl, bl1, sms), complements(ll, bl, sm), concats(gs, p.right_brk, sms), complements(ngs, gs, sm), concats(br1, sms, cs), concats(br, br1, ngs), complements(rl, br, sm), composes(ll, rl, lr), composes(lr, force, f)]
        {
            &&& is_loop_machine(sms, identity_pairs(sm))
            &&& is_step_machine(os, identity_pairs(seq![BRACKET_OPEN_OBLIG_LABEL]))
            &&& is_step_machine(cs, identity_pairs(seq![BRACKET_CLOSE_OBLIG_LABEL]))
            &&& concats(gp, sms, p.left_brk)
            &&& complements(ngp, gp, sm)
            &&& concats(bl1, ngp, os)
            &&& concats(bl, bl1, sms)
            &&& complements(ll, bl, sm)
            &&& concats(gs, p.right_brk, sms)
            &&& complements(ngs, gs, sm)
            &&& concats(br1, sms, cs)
            &&& concats(br, br1, ngs)
            &&& complements(rl, br, sm)
            &&& license_force(force, sm, sms, p)
            &&& composes(ll, rl, lr)
            &&& composes(lr, force, f)
        }
}

/// The context-licensing filter: every `<` preceded by `L`, every `>`
/// followed by `R`, and no licensed left-hand side left unbracketed.
fn build_context_license(m: &Markers, p: &BuiltPieces) -> (r: Result<Fst, DirectedReplaceError>)
    requires
        p.wf(),
    ensures
        r matches Ok(f) ==> f.wf() && context_license_of(
            f,
            m.sigma@ + m.stream@ + seq![BRACKET_OPEN_OBLIG_LABEL, BRACKET_CLOSE_OBLIG_LABEL],
            *p,
        ),
        r is Ok,
{
    let sigma_m = m.sigma_with_brackets();
    let ghost sm = sigma_m@;
    let sigma_m_star = star_over(&sigma_m);
    let open_v = vec![BRACKET_OPEN_OBLIG_LABEL];
    let close_v = vec![BRACKET_CLOSE_OBLIG_LABEL];
    proof {
        assert(open_v@ =~= seq![BRACKET_OPEN_OBLIG_LABEL]);
        assert(close_v@ =~= seq![BRACKET_CLOSE_OBLIG_LABEL]);
    }
    let open_step = step_over(&open_v);
    let close_step = step_over(&close_v);
    // Every < preceded by an L-match.
    let good_pref = concat(&sigma_m_star, &p.left_brk);
    let not_good_pref = complement_over(&good_pref, &sigma_m)?;
    let bl1 = concat(&not_good_pref, &open_step);
    let bad_left = concat(&bl1, &sigma_m_star);
    let left_license = complement_over(&bad_left, &sigma_m)?;
    // Every > followed by an R-match.
    let good_suf = concat(&p.right_brk, &sigma_m_star);
    let not_good_suf = complement_over(&good_suf, &sigma_m)?;
    let br1 = concat(&sigma_m_star, &close_step);
    let bad_right = concat(&br1, &not_good_suf);
    let right_license = complement_over(&bad_right, &sigma_m)?;
    // No unbracketed licensed left-hand side.
    let force = match &p.shape {
        LhsShape::SingleAtomRun { set } => {
            let set_step = step_over(set);
            let il_v = vec![BRACKET_OPEN_OBLIG_LABEL, BRACKET_CLOSE_OBLIG_LABEL, BOUNDARY_LABEL];
            proof {
                assert(il_v@ =~= seq![BRACKET_OPEN_OBLIG_LABEL, BRACKET_CLOSE_OBLIG_LABEL, BOUNDARY_LABEL]);
            }
            let interlift = star_over(&il_v);
            let cont = concat(&interlift, &set_step);
            let sc = closure_star(&cont);
            let run_lifted = concat(&set_step, &sc);
            let mut pre_set: Vec<Label> = Vec::new();
            let mut i: usize = 0;
            while i < sigma_m.len()
                invariant
                    i <= sigma_m@.len(),
                    pre_set@ == sigma_m@.take(i as int).filter(|l: Label| l != BRACKET_OPEN_OBLIG_LABEL && !set@.contains(l)),
                decreases sigma_m@.len() - i,
            {
                proof {
                    assert(sigma_m@.take(i + 1).drop_last() =~= sigma_m@.take(i as int));
                    reveal_with_fuel(Seq::filter, 1);
                }
                if sigma_m[i] != BRACKET_OPEN_OBLIG_LABEL && !contains_label(set, sigma_m[i]) {
                    pre_set.push(sigma_m[i]);
                }
                i = i + 1;
            }
            proof {
                assert(sigma_m@.take(sigma_m@.len() as int) =~= sigma_m@);
            }
            let pre = step_over(&pre_set);
            let prefix_pre = optional_guard(&pre, &sigma_m_star, true)?;
            let cont_rest = concat(&cont, &sigma_m_star);
            let dm = det_min(&cont_rest)?;
            let not_continue = complement_over(&dm, &sigma_m)?;
            let c1 = concat(&prefix_pre, &p.left_brk_sealed);
            let c2 = concat(&c1, &run_lifted);
            let f = concat(&c2, &p.right_brk_sealed_lead);
            let fnc = concat(&f, &not_continue);
            let bad_force = det_min(&fnc)?;
            let force = complement_over(&bad_force, &sigma_m)?;
            proof {
                assert(concats(cont, interlift, set_step) && stars(sc, cont) && concats(run_lifted, set_step, sc) && guarded(prefix_pre, pre, sigma_m_star, true) && concats(cont_rest, cont, sigma_m_star) && complements(not_continue, dm, sm) && concats(c1, prefix_pre, p.left_brk_sealed) && concats(c2, c1, run_lifted) && concats(f, c2, p.right_brk_sealed_lead) && concats(fnc, f, not_continue) && complements(force, bad_force, sm));
                assert(same_lang(dm, cont_rest) && same_lang(bad_force, fnc));
                assert(license_force(force, sm, sigma_m_star, *p));
            }
            force
        },
        _ => {
            let nonopen = labels_without(&sigma_m, BRACKET_OPEN_OBLIG_LABEL);
            let nonclose = labels_without(&sigma_m, BRACKET_CLOSE_OBLIG_LABEL);
            let no = step_over(&nonopen);
            let ncl = step_over(&nonclose);
            let prefix_noopen = optional_guard(&no, &sigma_m_star, true)?;
            let suffix_noclose = optional_guard(&ncl, &sigma_m_star, false)?;
            let c1 = concat(&prefix_noopen, &p.left_brk_sealed);
            let c2 = concat(&c1, &p.lhs_brk);
            let f = concat(&c2, &p.right_brk_sealed_lead);
            let fs = concat(&f, &suffix_noclose);
            let bad_force = det_min(&fs)?;
            let force = complement_over(&bad_force, &sigma_m)?;
            proof {
                assert(guarded(prefix_noopen, no, sigma_m_star, true) && guarded(suffix_noclose, ncl, sigma_m_star, false) && concats(c1, prefix_noopen, p.left_brk_sealed) && concats(c2, c1, p.lhs_brk) && concats(f, c2, p.right_brk_sealed_lead) && concats(fs, f, suffix_noclose) && complements(force, bad_force, sm));
                assert(same_lang(bad_force, fs));
                assert(license_force(force, sm, sigma_m_star, *p));
            }
            force
        },
    };
    let lr = intersect(&left_license, &right_license);
    let res = intersect(&lr, &force);
    proof {
        assert(concats(good_pref, sigma_m_star, p.left_brk) && complements(not_good_pref, good_pref, sm) && concats(bl1, not_good_pref, open_step) && concats(bad_left, bl1, sigma_m_star) && complements(left_license, bad_left, sm) && concats(good_suf, p.right_brk, sigma_m_star) && complements(not_good_suf, good_suf, sm) && concats(br1, sigma_m_star, close_step) && concats(bad_right, br1, not_good_suf) && complements(right_license, bad_right, sm) && composes(left_license, right_license, lr) && composes(lr, force, res));
    }
    Ok(res)
}

/// `f` is `(one label of sb | <:ε core >:ε)*`: outside brackets each
/// label of `sb` is copied, and a bracketed span is mapped by `core` with
/// the brackets erased.
pub open spec fn replace_inside_of(f: Fst, sb: Seq<Label>, core: Fst) -> bool {
    exists|o: Fst, od: Fst, cd: Fst, a1: Fst, br: Fst, u: Fst|
        #![trigger concats(a1, od, core), concats(br, a1, cd), unites(u, o, br), stars(f, u)]
        {
            &&& is_step_machine(o, identity_pairs(sb))
            &&& is_step_machine(od, seq![(BRACKET_OPEN_OBLIG_LABEL, EPS_LABEL)])
            &&& is_step_machine(cd, seq![(BRACKET_CLOSE_OBLIG_LABEL, EPS_LABEL)])
            &&& concats(a1, od, core)
            &&& concats(br, a1, cd)
            &&& unites(u, o, br)
            &&& stars(f, u)
        }
}

/// Identity outside `< .. >`; inside, drop the brackets and apply the
/// replace core.
fn build_replace_inside_brackets(m: &Markers, replace_core: &Fst) -> (f: Fst)
    requires
        replace_core.wf(),
    ensures
        f.wf(),
        replace_inside_of(f, m.sigma@ + m.stream@, *replace_core),
{
    let outside_one = step_over(&m.sigma_b());
    let open_drop = single_arc(BRACKET_OPEN_OBLIG_LABEL, EPS_LABEL);
    let close_drop = single_arc(BRACKET_CLOSE_OBLIG_LABEL, EPS_LABEL);
    let a1 = concat(&open_drop, replace_core);
    let bracket_replace = concat(&a1, &close_drop);
    let u = union(&outside_one, &bracket_replace);
    let f = closure_star(&u);
    proof {
        assert(concats(a1, open_drop, *replace_core) && concats(bracket_replace, a1, close_drop) && unites(u, outside_one, bracket_replace) && stars(f, u));
    }
    f
}

/// Identity on Σ_b; the caret and both brackets erased.
fn build_strip_all_markers(m: &Markers) -> (f: Fst)
    ensures
        f.wf(),
        is_loop_machine(f, identity_pairs(m.sigma@ + m.stream@) + erase_pairs(seq![
            CARET_OBLIG_LABEL,
            BRACKET_OPEN_OBLIG_LABEL,
            BRACKET_CLOSE_OBLIG_LABEL,
        ])),
{
    let mut pairs = id_pairs(&m.sigma_b());
    pairs.push((CARET_OBLIG_LABEL, EPS_LABEL));
    pairs.push((BRACKET_OPEN_OBLIG_LABEL, EPS_LABEL));
    pairs.push((BRACKET_CLOSE_OBLIG_LABEL, EPS_LABEL));
    proof {
        assert(pairs@ =~= identity_pairs(m.sigma@ + m.stream@) + erase_pairs(seq![
            CARET_OBLIG_LABEL,
            BRACKET_OPEN_OBLIG_LABEL,
            BRACKET_CLOSE_OBLIG_LABEL,
        ]));
    }
    loop_machine(&pairs)
}

/// The stages of the directed construction over Σ = `sigma`, composed in
/// order: insert optional carets; turn each caret before a left-hand side
/// into `<`…`>` around it (left to right); keep only longest matches; keep
/// only context-licensed brackets, every licensed match bracketed; map
/// each bracketed span through the replacement core; erase all markers.
spec fn directed_stages(
    f: Fst,
    sigma: Seq<Label>,
    p: BuiltPieces,
    st: (Fst, Fst, Fst, Fst, Fst, Fst, Fst, Fst, Fst, Fst),
) -> bool {
    let sb = sigma + seq![BOUNDARY_LABEL, WORD_START_LABEL, WORD_END_LABEL];
    let sm = sb + seq![BRACKET_OPEN_OBLIG_LABEL, BRACKET_CLOSE_OBLIG_LABEL];
    &&& p.wf()
    &&& is_loop_machine(st.0, identity_pairs(sb).push((EPS_LABEL, CARET_OBLIG_LABEL)))
    &&& left_to_right_of(st.1, sm, p.upper)
    &&& longest_match_of(st.2, sm, p.lhs_brk)
    &&& context_license_of(st.3, sm, p)
    &&& replace_inside_of(st.4, sb, p.replace_core)
    &&& is_loop_machine(st.5, identity_pairs(sb) + erase_pairs(seq![
        CARET_OBLIG_LABEL,
        BRACKET_OPEN_OBLIG_LABEL,
        BRACKET_CLOSE_OBLIG_LABEL,
    ]))
    &&& composed(st.6, st.0, st.1)
    &&& composed(st.7, st.6, st.2)
    &&& composed(st.8, st.7, st.3)
    &&& composed(st.9, st.8, st.4)
    &&& composed(f, st.9, st.5)
}

/// `f` is what the directed construction builds for `rule` over the
/// alphabet `a`: the composition of the stages [`directed_stages`] lists,
/// for pieces whose contexts were built from the rule's.
pub closed spec fn directed_pipeline(f: Fst, rule: PhonRewriteRule, a: PhonruleAlphabet, table: ClassMembers, map_table: FstTable) -> bool {
    exists|p: BuiltPieces, st: (Fst, Fst, Fst, Fst, Fst, Fst, Fst, Fst, Fst, Fst), a0: PhonruleAlphabet|
        #![trigger directed_stages(f, a.sigma_seq(), p, st), pieces_from_rule(p, rule, a0, a, table, map_table)]
        directed_stages(f, a.sigma_seq(), p, st) && pieces_from_rule(p, rule, a0, a, table, map_table)
}

/// Build the directed-replacement transducer of a rule.
///
/// `class_table` gives each class's member symbols; `map_table` each map's
/// compiled transducer. Fails with `UnsupportedShape` for left-hand sides
/// this construction cannot handle (among them a self-overlapping literal,
/// the empty literal, and an element sequence other than one atom), with
/// `UnknownClass` / `UnknownMap` for missing names (a class left-hand side
/// missing from `class_table` among them), and with `Backend` when a
/// determinisation exceeds the kernel's limit.
#[verifier::rlimit(60)]
pub fn build_directed_replacement(
    rule: &PhonRewriteRule,
    alpha: &mut PhonruleAlphabet,
    class_table: &ClassMembers,
    map_table: &FstTable,
) -> (r: Result<Fst, DirectedReplaceError>)
    requires
        old(alpha).wf(),
        map_table.wf(),
        rule_bounds_ok(*rule),
    ensures
        alphabet_extends(*old(alpha), *final(alpha)),
        r matches Ok(f) ==> f.wf(),
        rule.from matches PhonPattern::Literal(l) && self_overlaps(l.node@) ==> r matches Err(
            DirectedReplaceError::UnsupportedShape(_),
        ),
        unsupported_lhs(rule.from) ==> (r is Err && r->Err_0 is UnsupportedShape),
        single_atom_refused(rule.from) ==> (r is Err && r->Err_0 is UnsupportedShape),
        (rule.from is Class && class_table.spec_get(rule.from->Class_0.node@) is None) ==> (r is Err && r->Err_0 is UnknownClass),
        r matches Err(DirectedReplaceError::UnknownClass(n)) ==> class_table.spec_get(n@) is None,
        r matches Err(DirectedReplaceError::UnknownMap(n)) ==> map_table.spec_get(n@) is None,
        r matches Ok(f) ==> directed_pipeline(f, *rule, *final(alpha), *class_table, *map_table),
        r matches Err(e) ==> (e is UnsupportedShape || (e is UnknownClass && !directed_known(*rule, *class_table)) || (
        e is UnknownMap && map_missing(rule.to, *map_table))),
{
    let built = build_upper_and_replace_core(rule, alpha, class_table, map_table)?;
    let markers = Markers::new(alpha);
    let permissive = build_permissive_insert(&markers);
    let left_to_right = build_left_to_right(&markers, &built.upper);
    let longest = build_longest_match(&markers, &built.lhs_brk)?;
    let license = build_context_license(&markers, &built)?;
    let replace = build_replace_inside_brackets(&markers, &built.replace_core);
    let strip = build_strip_all_markers(&markers);
    let s1 = compose_sorted(&permissive, &left_to_right);
    let s2 = compose_sorted(&s1, &longest);
    let s3 = compose_sorted(&s2, &license);
    let s4 = compose_sorted(&s3, &replace);
    let f = compose_sorted(&s4, &strip);
    proof {
        let st = (permissive, left_to_right, longest, license, replace, strip, s1, s2, s3, s4);
        assert(composed(s1, permissive, left_to_right));
        assert(composed(s2, s1, longest));
        assert(composed(s3, s2, license));
        assert(composed(s4, s3, replace));
        assert(composed(f, s4, strip));
        assert(directed_stages(f, alpha.sigma_seq(), built, st));
        assert(pieces_from_rule(built, *rule, *old(alpha), *alpha, *class_table, *map_table));
    }
    Ok(f)
}

} // verus!
