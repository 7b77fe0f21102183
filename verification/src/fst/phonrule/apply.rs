//! Applying a compiled phonrule to a string, to a fixed point.

use vstd::prelude::*;

use crate::text::{char_to_string, str_chars, str_to_owned, string_push, string_push_str};
use super::super::alphabet::{
    morpheme_display, PhonruleAlphabet, BOUNDARY_LABEL, FIRST_MORPHEME_LABEL, WORD_END_LABEL, WORD_START_LABEL,
};
use super::super::backend::{Label, EPS_LABEL};
use super::super::laws::{lemma_chain_accepts, lemma_chain_language, lemma_compose_complete, lemma_compose_sound, lemma_same_shape_accepts};
use super::super::machine::{
    accepts, arc_sort_input, arc_sort_output, chain_machine, compose, is_run, lemma_run_append, lemma_strip_push, paths, run_ilabels,
    run_olabels, strip_eps, Fst,
};
use super::directed_replace::{count_true, lemma_closed_run, lemma_count_true, lemma_count_zero};
use super::class::{alphabet_extends, lemma_extends_refl, lemma_extends_trans, lemma_intern_extends, lit_label};
use super::replace::BOUNDARY_CHAR;

verus! {

/// Default bound on the rewrite iterations of [`apply_phonrule_fst`].
pub const MAX_PHONRULE_ITER: u32 = 64;

/// Bound on the paths examined per application step.
pub const PATH_ENUM_CAP: usize = 4096;

/// Error applying a phonrule.
#[derive(Debug, Clone, PartialEq, Eq)]
pub enum ApplyError {
    /// No fixed point within the iteration bound.
    ConvergenceLimit { iterations: u32, last_input: String },
    /// The rule produced no output for the input.
    NoOutput { input: String },
    /// The FST kernel failed.
    Backend(String),
}

impl ApplyError {
    /// The message shown for this error.
    pub open spec fn msg(&self) -> Seq<char> {
        match self {
            ApplyError::ConvergenceLimit { iterations, last_input } => "phonrule did not converge within "@ + crate::text::decimal(*iterations as nat) + " iterations (last input: "@ + crate::text::str_debug_form(last_input@) + ")"@,
            ApplyError::NoOutput { input } => "phonrule FST produced no output for input "@ + crate::text::str_debug_form(input@),
            ApplyError::Backend(s) => "phonrule apply backend error: "@ + s@,
        }
    }

    /// The message shown for this error.
    pub fn message(&self) -> (s: String)
        ensures
            s@ == self.msg(),
    {
        match self {
            ApplyError::ConvergenceLimit { iterations, last_input } => {
                let mut out = String::new();
                crate::text::string_push_str(&mut out, "phonrule did not converge within ");
                crate::text::push_decimal(&mut out, *iterations as u64);
                crate::text::string_push_str(&mut out, " iterations (last input: ");
                let d = crate::text::str_debug(last_input.as_str());
                crate::text::string_push_str(&mut out, d.as_str());
                crate::text::string_push_str(&mut out, ")");
                out
            },
            ApplyError::NoOutput { input } => {
                let mut out = String::new();
                crate::text::string_push_str(&mut out, "phonrule FST produced no output for input ");
                let d = crate::text::str_debug(input.as_str());
                crate::text::string_push_str(&mut out, d.as_str());
                out
            },
            ApplyError::Backend(s) => {
                let mut out = String::new();
                crate::text::string_push_str(&mut out, "phonrule apply backend error: ");
                crate::text::string_push_str(&mut out, s.as_str());
                out
            },
        }
    }
}

/// `a` sorts strictly before `b` lexicographically.
pub open spec fn labels_lt(a: Seq<Label>, b: Seq<Label>) -> bool
    decreases a.len(),
{
    if b.len() == 0 {
        false
    } else if a.len() == 0 {
        true
    } else if a[0] != b[0] {
        a[0] < b[0]
    } else {
        labels_lt(a.drop_first(), b.drop_first())
    }
}

/// Whether `a` sorts strictly before `b` lexicographically.
fn labels_less(a: &Vec<Label>, b: &Vec<Label>) -> (r: bool)
    ensures
        r == labels_lt(a@, b@),
{
    proof {
        assert(a@.skip(0) =~= a@);
        assert(b@.skip(0) =~= b@);
    }
    let mut i: usize = 0;
    while i < a.len() && i < b.len()
        invariant
            i <= a@.len(),
            i <= b@.len(),
            labels_lt(a@, b@) == labels_lt(a@.skip(i as int), b@.skip(i as int)),
        decreases a@.len() - i,
    {
        proof {
            assert(a@.skip(i as int).drop_first() =~= a@.skip(i + 1));
            assert(b@.skip(i as int).drop_first() =~= b@.skip(i + 1));
        }
        if a[i] != b[i] {
            return a[i] < b[i];
        }
        i = i + 1;
    }
    proof {
        if i == b@.len() {
            assert(b@.skip(i as int).len() == 0);
        } else {
            assert(a@.skip(i as int).len() == 0);
            assert(b@.skip(i as int).len() > 0);
        }
    }
    i < b.len()
}

/// The label of one character: `<bdy>` for the boundary character, the
/// label of its one-character symbol otherwise.
pub open spec fn char_label(alpha: PhonruleAlphabet, c: char) -> Label {
    if c == BOUNDARY_CHAR {
        BOUNDARY_LABEL
    } else {
        lit_label(alpha, seq![c])
    }
}

/// The labels of a text, character by character.
pub open spec fn text_labels(alpha: PhonruleAlphabet, s: Seq<char>) -> Seq<Label> {
    s.map_values(|c: char| char_label(alpha, c))
}

/// The text of one output label: nothing for `<^>` and `<$>`, the boundary
/// character for `<bdy>`, the label's name otherwise (nothing for an
/// unnamed label).
pub open spec fn label_piece(alpha: PhonruleAlphabet, l: Label) -> Seq<char> {
    if l == WORD_START_LABEL || l == WORD_END_LABEL {
        Seq::empty()
    } else if l == BOUNDARY_LABEL {
        seq![BOUNDARY_CHAR]
    } else if l < FIRST_MORPHEME_LABEL && (l as int) < alpha.names().len() {
        alpha.names()[l as int]
    } else if l >= FIRST_MORPHEME_LABEL && l - FIRST_MORPHEME_LABEL < alpha.morpheme_names().len() {
        morpheme_display(alpha.morpheme_names()[l - FIRST_MORPHEME_LABEL])
    } else {
        Seq::empty()
    }
}

/// The text of a sequence of output labels.
pub open spec fn label_text(alpha: PhonruleAlphabet, y: Seq<Label>) -> Seq<char>
    decreases y.len(),
{
    if y.len() == 0 {
        Seq::empty()
    } else {
        label_text(alpha, y.drop_last()) + label_piece(alpha, y.last())
    }
}

/// The labels of a string's characters: the boundary character is
/// `<bdy>`, every other character its one-character symbol (interned).
fn string_to_labels(s: &str, alpha: &mut PhonruleAlphabet) -> (r: Vec<Label>)
    requires
        old(alpha).wf(),
    ensures
        alphabet_extends(*old(alpha), *final(alpha)),
        r@.len() == s@.len(),
        r@ == text_labels(*final(alpha), s@),
{
    proof {
        lemma_extends_refl(*alpha);
    }
    let ghost a0 = *alpha;
    let chars = str_chars(s);
    let mut out: Vec<Label> = Vec::new();
    let mut i: usize = 0;
    while i < chars.len()
        invariant
            i <= chars@.len(),
            chars@ == s@,
            out@.len() == i,
            a0.wf(),
            a0 == *old(alpha),
            alphabet_extends(a0, *alpha),
            forall|j: int| 0 <= j < i ==> chars@[j] != BOUNDARY_CHAR ==> (#[trigger] alpha.spec_lookup(seq![chars@[j]])) is Some,
            forall|j: int| 0 <= j < i ==> #[trigger] out@[j] == char_label(*alpha, chars@[j]),
        decreases chars@.len() - i,
    {
        if chars[i] == BOUNDARY_CHAR {
            out.push(BOUNDARY_LABEL);
        } else {
            let ghost a1 = *alpha;
            let t = char_to_string(chars[i]);
            let l = alpha.intern(t.as_str());
            proof {
                lemma_intern_extends(a1, *alpha, t@, l);
                lemma_extends_trans(a0, a1, *alpha);
                assert forall|j: int| 0 <= j < i && chars@[j] != BOUNDARY_CHAR implies #[trigger] alpha.spec_lookup(seq![chars@[j]])
                    == a1.spec_lookup(seq![chars@[j]]) by {
                    assert(a1.spec_lookup(seq![chars@[j]]) is Some);
                }
                assert(l == lit_label(*alpha, seq![chars@[i as int]]));
            }
            out.push(l);
        }
        proof {
            assert forall|j: int| 0 <= j < i + 1 implies #[trigger] out@[j] == char_label(*alpha, chars@[j]) by {
                if j < i && chars@[j] != BOUNDARY_CHAR {
                    assert(alpha.spec_lookup(seq![chars@[j]]) is Some);
                }
            }
        }
        i = i + 1;
    }
    proof {
        assert(out@ =~= text_labels(*alpha, s@));
    }
    out
}

/// The text of output labels: markers `<^>`/`<$>` dropped, `<bdy>` as the
/// boundary character, every other label by its name (unnamed labels
/// dropped).
fn labels_to_string(labels: &Vec<Label>, alpha: &PhonruleAlphabet) -> (s: String)
    requires
        alpha.wf(),
    ensures
        s@ == label_text(*alpha, labels@),
{
    let mut out = String::new();
    let mut i: usize = 0;
    while i < labels.len()
        invariant
            alpha.wf(),
            i <= labels@.len(),
            out@ == label_text(*alpha, labels@.take(i as int)),
        decreases labels@.len() - i,
    {
        let l = labels[i];
        proof {
            assert(labels@.take(i + 1).drop_last() =~= labels@.take(i as int));
        }
        if l == WORD_START_LABEL || l == WORD_END_LABEL {
        } else if l == BOUNDARY_LABEL {
            string_push(&mut out, BOUNDARY_CHAR);
        } else {
            match alpha.label_to_str(l) {
                Some(name) => string_push_str(&mut out, name),
                None => {},
            }
        }
        i = i + 1;
    }
    proof {
        assert(labels@.take(labels@.len() as int) =~= labels@);
    }
    out
}

/// Some run from `s` to `t` reads `x` and writes `y`, epsilons dropped.
pub open spec fn labelled_run(f: Fst, s: int, t: int, x: Seq<Label>, y: Seq<Label>) -> bool {
    exists|steps: Seq<int>|
        #[trigger] is_run(f, s, steps, t) && strip_eps(run_ilabels(f, s, steps)) == x && strip_eps(run_olabels(f, s, steps)) == y
}

/// A copy of a label vector.
fn copy_labels(v: &Vec<Label>) -> (r: Vec<Label>)
    ensures
        r@ == v@,
{
    let mut r: Vec<Label> = Vec::new();
    let mut i: usize = 0;
    while i < v.len()
        invariant
            i <= v@.len(),
            r@ == v@.take(i as int),
        decreases v@.len() - i,
    {
        r.push(v[i]);
        proof {
            assert(v@.take(i + 1) =~= v@.take(i as int).push(v@[i as int]));
        }
        i = i + 1;
    }
    proof {
        assert(v@.take(v@.len() as int) =~= v@);
    }
    r
}

/// `v` extended by label `l` unless `l` is epsilon.
fn push_label(v: &Vec<Label>, l: Label) -> (r: Vec<Label>)
    ensures
        r@ == (if l != EPS_LABEL { v@.push(l) } else { v@ }),
{
    let mut r = copy_labels(v);
    if l != EPS_LABEL {
        r.push(l);
    }
    r
}

/// A pair that `f` maps, if it maps any: a depth-first search from the
/// start state that stops at the first final state it reaches, with the
/// labels read and written on the way there.
fn first_accepted(f: &Fst) -> (r: Option<(Vec<Label>, Vec<Label>)>)
    requires
        f.wf(),
    ensures
        r matches Some(p) ==> accepts(*f, p.0@, p.1@),
        r is None ==> forall|x: Seq<Label>, y: Seq<Label>| !#[trigger] accepts(*f, x, y),
{
    let s = match f.start {
        Some(s) => s,
        None => {
            return None;
        },
    };
    let n = f.arcs.len();
    let mut seen: Vec<bool> = Vec::new();
    let mut ins: Vec<Vec<Label>> = Vec::new();
    let mut outs: Vec<Vec<Label>> = Vec::new();
    let mut i: usize = 0;
    while i < n
        invariant
            i <= n,
            seen@.len() == i,
            ins@.len() == i,
            outs@.len() == i,
            forall|j: int| 0 <= j < i ==> !#[trigger] seen@[j],
        decreases n - i,
    {
        seen.push(false);
        ins.push(Vec::new());
        outs.push(Vec::new());
        i = i + 1;
    }
    proof {
        assert(count_true(seen@) == 0) by {
            assert forall|m: int| 0 <= m <= seen@.len() implies count_true(#[trigger] seen@.take(m)) == 0 by {
                lemma_count_zero(seen@, m);
            }
            assert(seen@.take(seen@.len() as int) =~= seen@);
        }
        lemma_count_true(seen@, s as int);
        assert(is_run(*f, s as int, Seq::<int>::empty(), s as int));
        assert(run_ilabels(*f, s as int, Seq::<int>::empty()) =~= Seq::<Label>::empty());
        assert(run_olabels(*f, s as int, Seq::<int>::empty()) =~= Seq::<Label>::empty());
    }
    let mut stack: Vec<usize> = vec![s];
    seen.set(s, true);
    ins.set(s, Vec::new());
    outs.set(s, Vec::new());
    proof {
        assert(labelled_run(*f, s as int, s as int, ins@[s as int]@, outs@[s as int]@));
    }
    let mut visited: usize = 1;
    let ghost mut done: Seq<bool> = Seq::new(n as nat, |j: int| false);
    while stack.len() > 0
        invariant
            f.wf(),
            f.start == Some(s),
            n == f.arcs@.len(),
            seen@.len() == n,
            ins@.len() == n,
            outs@.len() == n,
            done.len() == n,
            (s as int) < n,
            seen@[s as int],
            forall|k: int| 0 <= k < stack@.len() ==> (#[trigger] stack@[k]) < n && seen@[stack@[k] as int],
            stack@.len() <= visited,
            visited <= n,
            visited == count_true(seen@),
            forall|t: int| 0 <= t < n && #[trigger] seen@[t] ==> labelled_run(*f, s as int, t, ins@[t]@, outs@[t]@),
            forall|t: int| 0 <= t < n && #[trigger] seen@[t] ==> done[t] || stack@.contains(t as usize),
            forall|t: int| 0 <= t < n && #[trigger] done[t] ==> seen@[t] && !f.is_final(t) && forall|k: int|
                0 <= k < f.deg(t) ==> #[trigger] seen@[f.arc(t, k).nextstate as int],
        decreases n - visited, stack@.len(),
    {
        let ghost before = stack@;
        let q = stack.pop().unwrap();
        proof {
            assert(seen@[q as int]);
            assert forall|t: int| 0 <= t < n && #[trigger] seen@[t] implies done[t] || stack@.contains(t as usize) || t == q by {
                if !done[t] {
                    let j = choose|j: int| 0 <= j < before.len() && before[j] == t as usize;
                    if j < before.len() - 1 {
                        assert(stack@[j] == t as usize);
                    }
                }
            }
        }
        if f.finals[q] {
            let x = copy_labels(&ins[q]);
            let y = copy_labels(&outs[q]);
            proof {
                assert(labelled_run(*f, s as int, q as int, ins@[q as int]@, outs@[q as int]@));
                let steps = choose|steps: Seq<int>|
                    #[trigger] is_run(*f, s as int, steps, q as int) && strip_eps(run_ilabels(*f, s as int, steps)) == ins@[q as int]@
                        && strip_eps(run_olabels(*f, s as int, steps)) == outs@[q as int]@;
                assert(f.is_final(q as int));
                assert(is_run(*f, f.start->0 as int, steps, q as int));
            }
            return Some((x, y));
        }
        let ghost v0 = visited;
        let ghost s0 = stack@.len();
        let mut k: usize = 0;
        while k < f.arcs[q].len()
            invariant
                f.wf(),
                f.start == Some(s),
                n == f.arcs@.len(),
                q < n,
                seen@.len() == n,
                ins@.len() == n,
                outs@.len() == n,
                done.len() == n,
                seen@[q as int],
                seen@[s as int],
                !f.is_final(q as int),
                k <= f.deg(q as int),
                forall|j: int| 0 <= j < stack@.len() ==> (#[trigger] stack@[j]) < n && seen@[stack@[j] as int],
                stack@.len() <= visited,
                visited <= n,
                v0 <= visited,
                visited - v0 == stack@.len() - s0,
                visited == count_true(seen@),
                forall|t: int| 0 <= t < n && #[trigger] seen@[t] ==> labelled_run(*f, s as int, t, ins@[t]@, outs@[t]@),
                forall|t: int| 0 <= t < n && #[trigger] seen@[t] ==> done[t] || stack@.contains(t as usize) || t == q,
                forall|t: int| 0 <= t < n && #[trigger] done[t] ==> seen@[t] && !f.is_final(t) && forall|j: int|
                    0 <= j < f.deg(t) ==> #[trigger] seen@[f.arc(t, j).nextstate as int],
                forall|j: int| 0 <= j < k ==> #[trigger] seen@[f.arc(q as int, j).nextstate as int],
            decreases f.arcs@[q as int]@.len() - k,
        {
            let e = f.arcs[q][k];
            let t = e.nextstate;
            proof {
                assert(f.arc(q as int, k as int) == f.arcs@[q as int]@[k as int]);
            }
            if !seen[t] {
                let ghost sn0 = seen@;
                let ghost sk0 = stack@;
                let ghost i0 = ins@;
                let ghost o0 = outs@;
                let xi = push_label(&ins[q], e.ilabel);
                let yo = push_label(&outs[q], e.olabel);
                proof {
                    lemma_count_true(seen@, t as int);
                    assert(labelled_run(*f, s as int, q as int, ins@[q as int]@, outs@[q as int]@));
                    let steps = choose|steps: Seq<int>|
                        #[trigger] is_run(*f, s as int, steps, q as int) && strip_eps(run_ilabels(*f, s as int, steps)) == ins@[q as int]@
                            && strip_eps(run_olabels(*f, s as int, steps)) == outs@[q as int]@;
                    lemma_run_append(*f, s as int, steps, q as int, k as int);
                    lemma_strip_push(run_ilabels(*f, s as int, steps), e.ilabel);
                    lemma_strip_push(run_olabels(*f, s as int, steps), e.olabel);
                    assert(is_run(*f, s as int, steps.push(k as int), t as int));
                    assert(labelled_run(*f, s as int, t as int, xi@, yo@));
                }
                seen.set(t, true);
                ins.set(t, xi);
                outs.set(t, yo);
                stack.push(t);
                visited = visited + 1;
                proof {
                    assert forall|u: int| 0 <= u < n && #[trigger] seen@[u] implies labelled_run(*f, s as int, u, ins@[u]@, outs@[u]@) by {
                        if u != t {
                            assert(sn0[u]);
                            assert(ins@[u] == i0[u] && outs@[u] == o0[u]);
                        }
                    }
                    assert forall|u: int| 0 <= u < n && #[trigger] seen@[u] implies done[u] || stack@.contains(u as usize) || u == q by {
                        if u != t {
                            assert(sn0[u]);
                            if sk0.contains(u as usize) {
                                let j = choose|j: int| 0 <= j < sk0.len() && sk0[j] == u as usize;
                                assert(stack@[j] == u as usize);
                            }
                        } else {
                            assert(stack@[stack@.len() - 1] == t);
                        }
                    }
                    assert forall|u: int| 0 <= u < n && #[trigger] done[u] implies seen@[u] && !f.is_final(u) && forall|j: int|
                        0 <= j < f.deg(u) ==> #[trigger] seen@[f.arc(u, j).nextstate as int] by {
                        assert forall|j: int| 0 <= j < f.deg(u) implies #[trigger] seen@[f.arc(u, j).nextstate as int] by {
                            assert(sn0[f.arc(u, j).nextstate as int]);
                        }
                    }
                    assert forall|j: int| 0 <= j < k + 1 implies #[trigger] seen@[f.arc(q as int, j).nextstate as int] by {
                        if j < k {
                            assert(sn0[f.arc(q as int, j).nextstate as int]);
                        }
                    }
                }
            }
            k = k + 1;
        }
        proof {
            done = done.update(q as int, true);
            assert forall|t: int| 0 <= t < n && #[trigger] done[t] implies seen@[t] && !f.is_final(t) && forall|j: int|
                0 <= j < f.deg(t) ==> #[trigger] seen@[f.arc(t, j).nextstate as int] by {
                if t == q {
                    assert forall|j: int| 0 <= j < f.deg(t) implies #[trigger] seen@[f.arc(t, j).nextstate as int] by {
                        assert(f.arc(q as int, j) == f.arc(t, j));
                    }
                }
            }
        }
    }
    proof {
        assert forall|t: int| 0 <= t < n && #[trigger] seen@[t] implies done[t] by {
            assert(!stack@.contains(t as usize));
        }
        assert forall|x: Seq<Label>, y: Seq<Label>| !#[trigger] accepts(*f, x, y) by {
            if accepts(*f, x, y) {
                let (steps, t) = choose|steps: Seq<int>, t: int|
                    #![trigger is_run(*f, f.start->0 as int, steps, t)]
                    {
                        &&& f.start is Some
                        &&& is_run(*f, f.start->0 as int, steps, t)
                        &&& 0 <= t < f.n()
                        &&& f.is_final(t)
                        &&& strip_eps(run_ilabels(*f, f.start->0 as int, steps)) == x
                        &&& strip_eps(run_olabels(*f, f.start->0 as int, steps)) == y
                    };
                assert forall|u: int, j: int|
                    0 <= u < f.n() && seen@[u] && 0 <= j < f.deg(u) implies #[trigger] seen@[f.arc(u, j).nextstate as int] by {
                    assert(done[u]);
                }
                lemma_closed_run(*f, seen@, s as int, steps, t);
                assert(done[t]);
            }
        }
    }
    None
}

/// One application: the lexicographically least output among the
/// examined paths of `input ∘ rule`; where the enumeration examines none,
/// an output found by searching the composition. `NoOutput` only when
/// the rule maps the input to nothing.
fn apply_once(rule_sorted: &Fst, input: &str, alpha: &mut PhonruleAlphabet) -> (r: Result<String, ApplyError>)
    requires
        old(alpha).wf(),
        rule_sorted.wf(),
    ensures
        alphabet_extends(*old(alpha), *final(alpha)),
        r matches Err(e) ==> (e is NoOutput && e->input@ == input@),
        r is Err ==> forall|y: Seq<Label>| !#[trigger] accepts(*rule_sorted, strip_eps(text_labels(*final(alpha), input@)), y),
        r matches Ok(s) ==> exists|y: Seq<Label>|
            accepts(*rule_sorted, strip_eps(text_labels(*final(alpha), input@)), y) && #[trigger] label_text(
                *final(alpha),
                y,
            ) == s@,
{
    let labels = string_to_labels(input, alpha);
    let _n = labels.len();
    let input_acceptor = chain_machine(&labels, &labels);
    let left = arc_sort_output(&input_acceptor);
    let applied = compose(&left, rule_sorted);
    let ps = paths(&applied, PATH_ENUM_CAP);
    let mut best: Option<usize> = None;
    let mut i: usize = 0;
    while i < ps.len()
        invariant
            i <= ps@.len(),
            best matches Some(b) ==> b < ps@.len(),
        decreases ps@.len() - i,
    {
        best = match best {
            None => Some(i),
            Some(b) => if labels_less(&ps[i].output, &ps[b].output) {
                Some(i)
            } else {
                Some(b)
            },
        };
        i = i + 1;
    }
    match best {
        None => match first_accepted(&applied) {
            Some((_x, y)) => {
                let out = labels_to_string(&y, alpha);
                proof {
                    let x = _x@;
                    let z = y@;
                    lemma_compose_sound(left, *rule_sorted, applied, x, z);
                    let w = choose|w: Seq<Label>| accepts(left, x, w) && accepts(*rule_sorted, w, z);
                    lemma_same_shape_accepts(left, input_acceptor, x, w);
                    lemma_chain_language(input_acceptor, labels@, labels@, x, w);
                    assert(label_text(*alpha, z) == out@);
                }
                Ok(out)
            },
            None => {
                proof {
                    let x = strip_eps(labels@);
                    lemma_chain_accepts(input_acceptor, labels@, labels@);
                    lemma_same_shape_accepts(left, input_acceptor, x, x);
                    assert forall|y: Seq<Label>| !#[trigger] accepts(*rule_sorted, strip_eps(text_labels(*alpha, input@)), y) by {
                        if accepts(*rule_sorted, x, y) {
                            lemma_compose_complete(left, *rule_sorted, applied, x, x, y);
                        }
                    }
                }
                Err(ApplyError::NoOutput { input: str_to_owned(input) })
            },
        },
        Some(b) => {
            let out = labels_to_string(&ps[b].output, alpha);
            proof {
                let x = ps@[b as int].input@;
                let z = ps@[b as int].output@;
                assert(accepts(applied, x, z));
                lemma_compose_sound(left, *rule_sorted, applied, x, z);
                let y = choose|y: Seq<Label>| accepts(left, x, y) && accepts(*rule_sorted, y, z);
                lemma_same_shape_accepts(left, input_acceptor, x, y);
                lemma_chain_language(input_acceptor, labels@, labels@, x, y);
                assert(label_text(*alpha, z) == out@);
            }
            Ok(out)
        },
    }
}

/// The rule maps the labels of `s` (epsilons dropped) to a label sequence
/// whose text is `s` again.
pub open spec fn is_fixed_point(rule: Fst, alpha: PhonruleAlphabet, s: Seq<char>) -> bool {
    exists|y: Seq<Label>| accepts(rule, strip_eps(text_labels(alpha, s)), y) && #[trigger] label_text(alpha, y) == s
}

/// Pass `j` maps `strs[j]` to `strs[j + 1]`: some output of the rule on the
/// labels of `strs[j]`, in the alphabet `alphas[j]` of that pass, has the
/// text `strs[j + 1]`.
pub open spec fn pass_step(rule: Fst, alphas: Seq<PhonruleAlphabet>, strs: Seq<Seq<char>>, j: int) -> bool {
    exists|y: Seq<Label>|
        accepts(rule, strip_eps(text_labels(alphas[j], strs[j])), y) && #[trigger] label_text(alphas[j], y) == strs[j + 1]
}

/// `strs` is a chain of passes of the rule, one per alphabet in `alphas`.
pub open spec fn is_pass_chain(rule: Fst, alphas: Seq<PhonruleAlphabet>, strs: Seq<Seq<char>>) -> bool {
    &&& strs.len() == alphas.len() + 1
    &&& forall|j: int| 0 <= j < alphas.len() ==> #[trigger] pass_step(rule, alphas, strs, j)
}

/// Apply a compiled phonrule to `input` repeatedly until the output equals
/// the input, at most `max_iter` times. The result is a fixed point of the
/// rule, reached from `input` by a chain of passes whose last one maps it
/// to itself; `ConvergenceLimit` gives the string that `max_iter` passes,
/// none of them a fixed point, led to.
///
/// Fails with `NoOutput` when some step has no output (the rule maps the
/// string that step starts from to nothing), and with
/// `ConvergenceLimit { iterations: max_iter, .. }` when no step reached a
/// fixed point.
pub fn apply_phonrule_fst(rule_fst: &Fst, input: &str, alpha: &mut PhonruleAlphabet, max_iter: u32) -> (r: Result<String, ApplyError>)
    requires
        old(alpha).wf(),
        rule_fst.wf(),
    ensures
        alphabet_extends(*old(alpha), *final(alpha)),
        r matches Err(ApplyError::ConvergenceLimit { iterations, last_input: _ }) ==> iterations == max_iter,
        !(r matches Err(ApplyError::Backend(_))),
        max_iter == 0 ==> (r is Err && r->Err_0 is ConvergenceLimit && r->Err_0->last_input@ == input@),
        r matches Ok(s) ==> is_fixed_point(*rule_fst, *final(alpha), s@),
        r matches Ok(s) ==> exists|alphas: Seq<PhonruleAlphabet>, strs: Seq<Seq<char>>|
            {
                &&& #[trigger] is_pass_chain(*rule_fst, alphas, strs)
                &&& 1 <= alphas.len() <= max_iter
                &&& strs[0] == input@
                &&& strs[strs.len() - 2] == s@
                &&& strs[strs.len() - 1] == s@
            },
        r matches Err(ApplyError::NoOutput { input: s }) ==> exists|alphas: Seq<PhonruleAlphabet>, strs: Seq<Seq<char>>|
            {
                &&& #[trigger] is_pass_chain(*rule_fst, alphas, strs)
                &&& alphas.len() < max_iter
                &&& strs[0] == input@
                &&& strs[strs.len() - 1] == s@
            },
        r matches Err(ApplyError::NoOutput { input: s }) ==> forall|y: Seq<Label>|
            !#[trigger] accepts(*rule_fst, strip_eps(text_labels(*final(alpha), s@)), y),
        r matches Err(ApplyError::ConvergenceLimit { iterations: _, last_input }) ==> exists|
            alphas: Seq<PhonruleAlphabet>,
            strs: Seq<Seq<char>>,
        |
            {
                &&& #[trigger] is_pass_chain(*rule_fst, alphas, strs)
                &&& alphas.len() == max_iter
                &&& strs[0] == input@
                &&& strs[strs.len() - 1] == last_input@
                &&& forall|j: int| 0 <= j < alphas.len() ==> strs[j] != #[trigger] strs[j + 1]
            },
{
    proof {
        lemma_extends_refl(*alpha);
    }
    let ghost a0 = *alpha;
    let rule_sorted = arc_sort_input(rule_fst);
    let mut current = str_to_owned(input);
    let mut k: u32 = 0;
    let ghost mut alphas: Seq<PhonruleAlphabet> = seq![];
    let ghost mut strs: Seq<Seq<char>> = seq![input@];
    while k < max_iter
        invariant
            k <= max_iter,
            is_pass_chain(*rule_fst, alphas, strs),
            alphas.len() == k,
            strs[0] == input@,
            strs[strs.len() - 1] == current@,
            forall|j: int| 0 <= j < alphas.len() ==> strs[j] != #[trigger] strs[j + 1],
            rule_sorted.wf(),
            rule_sorted.start == rule_fst.start,
            rule_sorted.finals@ == rule_fst.finals@,
            rule_sorted.rows() == rule_fst.rows(),
            a0.wf(),
            a0 == *old(alpha),
            alphabet_extends(a0, *alpha),
            k == 0 ==> current@ == input@,
        decreases max_iter - k,
    {
        let ghost a1 = *alpha;
        let step = apply_once(&rule_sorted, current.as_str(), alpha);
        proof {
            lemma_extends_trans(a0, a1, *alpha);
        }
        let next = match step {
            Ok(s) => s,
            Err(e) => {
                proof {
                    assert(is_pass_chain(*rule_fst, alphas, strs));
                    assert forall|y: Seq<Label>| !#[trigger] accepts(*rule_fst, strip_eps(text_labels(*alpha, current@)), y) by {
                        lemma_same_shape_accepts(rule_sorted, *rule_fst, strip_eps(text_labels(*alpha, current@)), y);
                    }
                }
                return Err(e);
            },
        };
        let ghost alphas1 = alphas.push(*alpha);
        let ghost strs1 = strs.push(next@);
        proof {
            let y = choose|y: Seq<Label>|
                accepts(rule_sorted, strip_eps(text_labels(*alpha, current@)), y) && #[trigger] label_text(*alpha, y) == next@;
            lemma_same_shape_accepts(rule_sorted, *rule_fst, strip_eps(text_labels(*alpha, current@)), y);
            assert(alphas1[k as int] == *alpha);
            assert(strs1[k as int] == current@);
            assert(strs1[k + 1] == next@);
            assert(accepts(*rule_fst, strip_eps(text_labels(alphas1[k as int], strs1[k as int])), y)
                && label_text(alphas1[k as int], y) == strs1[k + 1]);
            assert(pass_step(*rule_fst, alphas1, strs1, k as int));
            assert forall|j: int| 0 <= j < alphas1.len() implies #[trigger] pass_step(*rule_fst, alphas1, strs1, j) by {
                if j < k {
                    assert(pass_step(*rule_fst, alphas, strs, j));
                    assert(alphas1[j] == alphas[j] && strs1[j] == strs[j] && strs1[j + 1] == strs[j + 1]);
                    let y = choose|y: Seq<Label>|
                        accepts(*rule_fst, strip_eps(text_labels(alphas[j], strs[j])), y) && #[trigger] label_text(alphas[j], y) == strs[j + 1];
                }
            }
            assert(is_pass_chain(*rule_fst, alphas1, strs1));
        }
        if crate::text::str_eq(next.as_str(), current.as_str()) {
            proof {
                let y = choose|y: Seq<Label>|
                    accepts(rule_sorted, strip_eps(text_labels(*alpha, current@)), y) && #[trigger] label_text(*alpha, y)
                        == next@;
                lemma_same_shape_accepts(rule_sorted, *rule_fst, strip_eps(text_labels(*alpha, next@)), y);
                assert(is_fixed_point(*rule_fst, *alpha, next@));
            }
            return Ok(next);
        }
        proof {
            assert forall|j: int| 0 <= j < alphas1.len() implies strs1[j] != #[trigger] strs1[j + 1] by {
                if j < k {
                    assert(strs1[j] == strs[j] && strs1[j + 1] == strs[j + 1]);
                }
            }
            alphas = alphas1;
            strs = strs1;
        }
        current = next;
        k = k + 1;
    }
    Err(ApplyError::ConvergenceLimit { iterations: max_iter, last_input: current })
}

} // verus!
