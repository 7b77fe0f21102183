//! Compiling one rewrite rule into a transducer.
//!
//! The bracketed construction composes
//! `intro_brackets ∘ constraint ∘ replacement ∘ leftmost ∘ strip_brackets`;
//! the directed construction of [`super::directed_replace`] is preferred
//! where it supports the rule's shape.

use vstd::prelude::*;

use crate::ast::{PhonAtom, PhonContextElem, PhonPattern, PhonReplacement, PhonRewriteRule};
use crate::text::{char_to_string, str_chars, str_eq};
use super::super::alphabet::PhonruleAlphabet;
use super::super::machine::{accepts, arc_sort_input, arc_sort_output, compose, is_loop_machine, Fst};
use super::super::backend::Label;
use super::super::table::{ClassMembers, FstTable};
use super::super::laws::composed;
use super::brackets::{intro_brackets, intro_pairs, strip_brackets, strip_pairs};
use super::class::{alphabet_extends, lemma_extends_refl, lemma_extends_trans, lemma_intern_extends};
use super::directed_replace::{
    build_directed_replacement, directed_known, directed_pipeline, rule_bounds_ok, self_overlaps, single_atom_refused, unsupported_lhs,
    DirectedReplaceError,
};
use super::constraint::{build_obligatory_constraint, constraint_parts, context_bounds_ok, rule_resolves, ConstraintCompileError};
use super::leftmost::{build_longest_leftmost_filter, filters_with, sigma_hat, single_symbol_lhs, LeftmostCompileError};
use super::replacement::{build_replacement_transducer, lhs_of, maps_through, pattern_bounds_ok, replaces_with, ReplacementCompileError};

verus! {

/// Error compiling a rewrite rule.
#[derive(Debug, Clone, PartialEq, Eq)]
pub enum RewriteCompileError {
    Constraint(ConstraintCompileError),
    Replacement(ReplacementCompileError),
    Leftmost(LeftmostCompileError),
    /// The directed construction failed for a reason other than an
    /// unsupported shape (an unknown class or map, a state limit).
    DirectedReplace(DirectedReplaceError),
}

impl RewriteCompileError {
    /// The message shown for this error.
    pub open spec fn msg(&self) -> Seq<char> {
        match self {
            RewriteCompileError::Constraint(e) => e.msg(),
            RewriteCompileError::Replacement(e) => e.msg(),
            RewriteCompileError::Leftmost(e) => e.msg(),
            RewriteCompileError::DirectedReplace(e) => e.msg(),
        }
    }

    /// The message shown for this error.
    pub fn message(&self) -> (s: String)
        ensures
            s@ == self.msg(),
    {
        match self {
            RewriteCompileError::Constraint(e) => e.message(),
            RewriteCompileError::Replacement(e) => e.message(),
            RewriteCompileError::Leftmost(e) => e.message(),
            RewriteCompileError::DirectedReplace(e) => e.message(),
        }
    }
}

/// How rewrite rules are compiled.
#[derive(Debug, Clone, Copy, Default, PartialEq, Eq)]
pub struct RewriteEngineOptions {
    /// Always use the bracketed construction, never the directed one.
    pub force_strategy_b: bool,
}

impl RewriteEngineOptions {
    /// The options selected by the value of the
    /// `HUBULLU_FORCE_STRATEGY_B` setting: unset, empty, `0` or `false` (any
    /// case, surrounding whitespace ignored) leave the directed
    /// construction on; anything else forces the bracketed one.
    pub fn from_env_value(value: Option<&str>) -> (o: Self)
        ensures
            value is None ==> !o.force_strategy_b,
            value matches Some(v) ==> o.force_strategy_b == !flag_off_text(v@),
    {
        match value {
            None => RewriteEngineOptions { force_strategy_b: false },
            Some(v) => {
                let chars = str_chars(v);
                let (lo, hi) = trim_bounds(&chars);
                let off = (hi == lo) || (hi - lo == 1 && chars[lo] == '0') || (hi - lo == 5 && is_false_word(&chars, lo));
                proof {
                    let t = chars@.subrange(lo as int, hi as int);
                    assert(t.len() == hi - lo);
                    if hi - lo == 1 {
                        assert(t[0] == chars@[lo as int]);
                        if chars@[lo as int] == '0' {
                            assert(t =~= seq!['0']);
                        }
                    }
                    if t == seq!['0'] {
                        assert(t[0] == '0');
                    }
                    if hi - lo == 5 {
                        assert(t[0] == chars@[lo as int]);
                        assert(t[1] == chars@[lo + 1]);
                        assert(t[2] == chars@[lo + 2]);
                        assert(t[3] == chars@[lo + 3]);
                        assert(t[4] == chars@[lo + 4]);
                    }
                    assert(flag_off_text(v@) == off);
                }
                RewriteEngineOptions { force_strategy_b: !off }
            },
        }
    }
}

/// Whether `c` has the Unicode `White_Space` property, as
/// `char::is_whitespace` decides: the 25 code points U+0009..=U+000D,
/// U+0020, U+0085, U+00A0, U+1680, U+2000..=U+200A, U+2028, U+2029,
/// U+202F, U+205F and U+3000.
pub open spec fn is_ws(c: char) -> bool {
    let u = c as u32;
    ||| 0x9 <= u <= 0xD
    ||| u == 0x20 || u == 0x85 || u == 0xA0 || u == 0x1680
    ||| 0x2000 <= u <= 0x200A
    ||| u == 0x2028 || u == 0x2029 || u == 0x202F || u == 0x205F || u == 0x3000
}

/// Index of the first non-whitespace character at or after `i`.
pub open spec fn first_non_ws(s: Seq<char>, i: int) -> int
    decreases s.len() - i,
{
    if i >= s.len() || !is_ws(s[i]) {
        i
    } else {
        first_non_ws(s, i + 1)
    }
}

/// One past the last non-whitespace character at or before `j - 1`, not
/// below `lo`.
pub open spec fn last_non_ws(s: Seq<char>, lo: int, j: int) -> int
    decreases j - lo,
{
    if j <= lo || !is_ws(s[j - 1]) {
        j
    } else {
        last_non_ws(s, lo, j - 1)
    }
}

/// The trimmed text is empty, `0`, or `false` in any letter case.
pub open spec fn flag_off_text(s: Seq<char>) -> bool {
    let lo = first_non_ws(s, 0);
    let hi = last_non_ws(s, lo, s.len() as int);
    let t = s.subrange(lo, hi);
    ||| t.len() == 0
    ||| t == seq!['0']
    ||| (t.len() == 5 && (t[0] == 'f' || t[0] == 'F') && (t[1] == 'a' || t[1] == 'A') && (t[2] == 'l' || t[2]
        == 'L') && (t[3] == 's' || t[3] == 'S') && (t[4] == 'e' || t[4] == 'E'))
}

/// Whether `c` has the Unicode `White_Space` property (the code points
/// that [`is_ws`] lists), as `char::is_whitespace` decides.
fn is_ws_char(c: char) -> (b: bool)
    ensures
        b == is_ws(c),
{
    let u = c as u32;
    (0x9 <= u && u <= 0xD) || u == 0x20 || u == 0x85 || u == 0xA0 || u == 0x1680 || (0x2000 <= u && u <= 0x200A)
        || u == 0x2028 || u == 0x2029 || u == 0x202F || u == 0x205F || u == 0x3000
}

/// The bounds of the text without surrounding whitespace.
fn trim_bounds(chars: &Vec<char>) -> (r: (usize, usize))
    ensures
        r.0 as int == first_non_ws(chars@, 0),
        r.1 as int == last_non_ws(chars@, r.0 as int, chars@.len() as int),
        r.0 <= r.1 <= chars@.len(),
{
    let mut lo: usize = 0;
    while lo < chars.len() && is_ws_char(chars[lo])
        invariant
            lo <= chars@.len(),
            first_non_ws(chars@, lo as int) == first_non_ws(chars@, 0),
        decreases chars@.len() - lo,
    {
        lo = lo + 1;
    }
    let mut hi: usize = chars.len();
    while hi > lo && is_ws_char(chars[hi - 1])
        invariant
            lo <= hi <= chars@.len(),
            lo as int == first_non_ws(chars@, 0),
            last_non_ws(chars@, lo as int, hi as int) == last_non_ws(chars@, lo as int, chars@.len() as int),
        decreases hi - lo,
    {
        hi = hi - 1;
    }
    (lo, hi)
}

/// Whether `chars[lo..lo + 5]` spells `false` in any letter case.
fn is_false_word(chars: &Vec<char>, lo: usize) -> (b: bool)
    requires
        lo + 5 <= chars@.len(),
    ensures
        b == ((chars@[lo as int] == 'f' || chars@[lo as int] == 'F') && (chars@[lo + 1] == 'a' || chars@[lo + 1] == 'A')
            && (chars@[lo + 2] == 'l' || chars@[lo + 2] == 'L') && (chars@[lo + 3] == 's' || chars@[lo + 3] == 'S')
            && (chars@[lo + 4] == 'e' || chars@[lo + 4] == 'E')),
{
    let n = chars.len();
    assert(lo + 5 <= n);
    let c0 = chars[lo];
    let c1 = chars[lo + 1];
    let c2 = chars[lo + 2];
    let c3 = chars[lo + 3];
    let c4 = chars[lo + 4];
    (c0 == 'f' || c0 == 'F') && (c1 == 'a' || c1 == 'A') && (c2 == 'l' || c2 == 'L') && (c3 == 's' || c3 == 'S') && (
    c4 == 'e' || c4 == 'E')
}

/// The morpheme-boundary character of runtime strings; it is never a
/// symbol of the alphabet.
pub const BOUNDARY_CHAR: char = '\0';

/// Intern every character of `s` except the boundary character.
pub(crate) fn intern_str_chars(s: &str, alpha: &mut PhonruleAlphabet)
    requires
        old(alpha).wf(),
    ensures
        alphabet_extends(*old(alpha), *final(alpha)),
        str_chars_known(*final(alpha), s@),
{
    proof {
        lemma_extends_refl(*alpha);
    }
    let ghost a0 = *alpha;
    let chars = str_chars(s);
    let mut i: usize = 0;
    while i < chars.len()
        invariant
            i <= chars@.len(),
            chars@ == s@,
            a0.wf(),
            a0 == *old(alpha),
            alphabet_extends(a0, *alpha),
            forall|k: int| 0 <= k < i && s@[k] != BOUNDARY_CHAR ==> alpha.spec_lookup(seq![#[trigger] s@[k]]) is Some,
        decreases chars@.len() - i,
    {
        if chars[i] != BOUNDARY_CHAR {
            let ghost a1 = *alpha;
            let t = char_to_string(chars[i]);
            let l = alpha.intern(t.as_str());
            proof {
                lemma_intern_extends(a1, *alpha, t@, l);
                lemma_extends_trans(a0, a1, *alpha);
                assert forall|k: int| 0 <= k < i + 1 && s@[k] != BOUNDARY_CHAR implies alpha.spec_lookup(seq![#[trigger] s@[k]]) is Some by {
                    if k < i {
                        assert(a1.spec_lookup(seq![s@[k]]) is Some);
                    }
                }
            }
        }
        i = i + 1;
    }
}

/// Every literal character of the element (outside the boundary
/// character) is a known symbol.
pub open spec fn elem_chars_known(alpha: PhonruleAlphabet, e: PhonContextElem) -> bool
    decreases e, 1int, 0int,
{
    match e {
        PhonContextElem::Atom(atom, _) => match atom {
            PhonAtom::Literal(lit) => str_chars_known(alpha, lit.node@),
            PhonAtom::Alt(elems) => elems_chars_known_upto(alpha, e, elems@, elems@.len() as int),
            PhonAtom::SylBlock(elems) => elems_chars_known_upto(alpha, e, elems@, elems@.len() as int),
            _ => true,
        },
        _ => true,
    }
}

/// [`elem_chars_known`] for the first `k` elements of `s`, the elements
/// nested in `parent`.
pub open spec fn elems_chars_known_upto(alpha: PhonruleAlphabet, parent: PhonContextElem, s: Seq<PhonContextElem>, k: int) -> bool
    decreases parent, 0int, k,
{
    if k <= 0 || k > s.len() {
        true
    } else {
        &&& elems_chars_known_upto(alpha, parent, s, k - 1)
        &&& if decreases_to!(parent => s[k - 1]) {
            elem_chars_known(alpha, s[k - 1])
        } else {
            true
        }
    }
}

/// Every element of the sequence has its literal characters known.
pub open spec fn seq_chars_known(alpha: PhonruleAlphabet, s: Seq<PhonContextElem>) -> bool {
    forall|i: int| 0 <= i < s.len() ==> elem_chars_known(alpha, #[trigger] s[i])
}

/// Every literal character of the rule (left-hand side, right-hand side,
/// contexts) is a known symbol.
pub open spec fn rule_chars_known(alpha: PhonruleAlphabet, rule: PhonRewriteRule) -> bool {
    &&& (rule.from matches PhonPattern::Literal(l) ==> str_chars_known(alpha, l.node@))
    &&& (rule.from matches PhonPattern::Range(elems) ==> seq_chars_known(alpha, elems@))
    &&& (rule.to matches PhonReplacement::Literal(l) ==> str_chars_known(alpha, l.node@))
    &&& (rule.context matches Some(ctx) ==> seq_chars_known(alpha, ctx.left@) && seq_chars_known(alpha, ctx.right@))
}

pub proof fn lemma_str_known_stable(a1: PhonruleAlphabet, a2: PhonruleAlphabet, s: Seq<char>)
    requires
        str_chars_known(a1, s),
        alphabet_extends(a1, a2),
    ensures
        str_chars_known(a2, s),
{
    assert forall|k: int| 0 <= k < s.len() && s[k] != BOUNDARY_CHAR implies a2.spec_lookup(seq![#[trigger] s[k]]) is Some by {
        assert(a1.spec_lookup(seq![s[k]]) is Some);
    }
}

pub proof fn lemma_elem_known_stable(a1: PhonruleAlphabet, a2: PhonruleAlphabet, e: PhonContextElem)
    requires
        elem_chars_known(a1, e),
        alphabet_extends(a1, a2),
    ensures
        elem_chars_known(a2, e),
    decreases e, 1int, 0int,
{
    match e {
        PhonContextElem::Atom(atom, _) => match atom {
            PhonAtom::Literal(lit) => lemma_str_known_stable(a1, a2, lit.node@),
            PhonAtom::Alt(elems) => lemma_upto_known_stable(a1, a2, e, elems@, elems@.len() as int),
            PhonAtom::SylBlock(elems) => lemma_upto_known_stable(a1, a2, e, elems@, elems@.len() as int),
            _ => {},
        },
        _ => {},
    }
}

proof fn lemma_upto_known_stable(a1: PhonruleAlphabet, a2: PhonruleAlphabet, parent: PhonContextElem, s: Seq<PhonContextElem>, k: int)
    requires
        elems_chars_known_upto(a1, parent, s, k),
        alphabet_extends(a1, a2),
    ensures
        elems_chars_known_upto(a2, parent, s, k),
    decreases parent, 0int, k,
{
    if k > 0 && k <= s.len() {
        lemma_upto_known_stable(a1, a2, parent, s, k - 1);
        if decreases_to!(parent => s[k - 1]) {
            lemma_elem_known_stable(a1, a2, s[k - 1]);
        }
    }
}

proof fn lemma_known_upto(alpha: PhonruleAlphabet, e: PhonContextElem, s: Seq<PhonContextElem>, k: int)
    requires
        0 <= k <= s.len(),
        forall|i: int| 0 <= i < s.len() ==> decreases_to!(e => #[trigger] s[i]),
        forall|i: int| 0 <= i < k ==> elem_chars_known(alpha, #[trigger] s[i]),
    ensures
        elems_chars_known_upto(alpha, e, s, k),
    decreases k,
{
    if k > 0 {
        lemma_known_upto(alpha, e, s, k - 1);
        assert(decreases_to!(e => s[k - 1]));
    }
}

pub proof fn lemma_seq_known_stable(a1: PhonruleAlphabet, a2: PhonruleAlphabet, s: Seq<PhonContextElem>)
    requires
        seq_chars_known(a1, s),
        alphabet_extends(a1, a2),
    ensures
        seq_chars_known(a2, s),
{
    assert forall|i: int| 0 <= i < s.len() implies elem_chars_known(a2, #[trigger] s[i]) by {
        lemma_elem_known_stable(a1, a2, s[i]);
    }
}

pub proof fn lemma_rule_known_stable(a1: PhonruleAlphabet, a2: PhonruleAlphabet, rule: PhonRewriteRule)
    requires
        rule_chars_known(a1, rule),
        alphabet_extends(a1, a2),
    ensures
        rule_chars_known(a2, rule),
{
    match rule.from {
        PhonPattern::Literal(l) => lemma_str_known_stable(a1, a2, l.node@),
        PhonPattern::Range(elems) => lemma_seq_known_stable(a1, a2, elems@),
        _ => {},
    }
    match rule.to {
        PhonReplacement::Literal(l) => lemma_str_known_stable(a1, a2, l.node@),
        _ => {},
    }
    match rule.context {
        Some(ctx) => {
            lemma_seq_known_stable(a1, a2, ctx.left@);
            lemma_seq_known_stable(a1, a2, ctx.right@);
        },
        None => {},
    }
}

/// Every character of `s` but the boundary character is a known symbol.
pub open spec fn str_chars_known(alpha: PhonruleAlphabet, s: Seq<char>) -> bool {
    forall|k: int| 0 <= k < s.len() && s[k] != BOUNDARY_CHAR ==> alpha.spec_lookup(seq![#[trigger] s[k]]) is Some
}

/// Intern the literal characters of a context element.
pub(crate) fn intern_context_elem(elem: &PhonContextElem, alpha: &mut PhonruleAlphabet)
    requires
        old(alpha).wf(),
    ensures
        alphabet_extends(*old(alpha), *final(alpha)),
        elem_chars_known(*final(alpha), *elem),
    decreases elem,
{
    proof {
        lemma_extends_refl(*alpha);
    }
    match elem {
        PhonContextElem::Atom(atom, _) => match atom {
            PhonAtom::Literal(lit) => intern_str_chars(lit.node.as_str(), alpha),
            PhonAtom::Alt(elems) | PhonAtom::SylBlock(elems) => {
                let ghost a0 = *alpha;
                proof {
                    assert forall|j: int| 0 <= j < elems@.len() implies decreases_to!(*elem => #[trigger] elems@[j]) by {
                        assert(decreases_to!(*elem => elem->Atom_0));
                        assert(decreases_to!(*elems => elems@));
                        assert(decreases_to!(elems@ => elems@[j]));
                    }
                }
                let mut i: usize = 0;
                while i < elems.len()
                    invariant
                        i <= elems@.len(),
                        a0.wf(),
                        a0 == *old(alpha),
                        alphabet_extends(a0, *alpha),
                        forall|j: int| 0 <= j < elems@.len() ==> decreases_to!(*elem => #[trigger] elems@[j]),
                        forall|j: int| 0 <= j < i ==> elem_chars_known(*alpha, #[trigger] elems@[j]),
                    decreases elems@.len() - i,
                {
                    let ghost a1 = *alpha;
                    proof {
                        assert(decreases_to!(*elem => elems@[i as int]));
                    }
                    intern_context_elem(&elems[i], alpha);
                    proof {
                        lemma_extends_trans(a0, a1, *alpha);
                        assert forall|j: int| 0 <= j < i + 1 implies elem_chars_known(*alpha, #[trigger] elems@[j]) by {
                            if j < i {
                                lemma_elem_known_stable(a1, *alpha, elems@[j]);
                            }
                        }
                    }
                    i = i + 1;
                }
                proof {
                    lemma_known_upto(*alpha, *elem, elems@, elems@.len() as int);
                }
            },
            _ => {},
        },
        _ => {},
    }
}

/// Intern the literal characters of a sequence of context elements.
pub(crate) fn intern_context_elems(elems: &Vec<PhonContextElem>, alpha: &mut PhonruleAlphabet)
    requires
        old(alpha).wf(),
    ensures
        alphabet_extends(*old(alpha), *final(alpha)),
        seq_chars_known(*final(alpha), elems@),
{
    proof {
        lemma_extends_refl(*alpha);
    }
    let ghost a0 = *alpha;
    let mut i: usize = 0;
    while i < elems.len()
        invariant
            i <= elems@.len(),
            a0.wf(),
            a0 == *old(alpha),
            alphabet_extends(a0, *alpha),
            forall|j: int| 0 <= j < i ==> elem_chars_known(*alpha, #[trigger] elems@[j]),
        decreases elems@.len() - i,
    {
        let ghost a1 = *alpha;
        intern_context_elem(&elems[i], alpha);
        proof {
            lemma_extends_trans(a0, a1, *alpha);
            assert forall|j: int| 0 <= j < i + 1 implies elem_chars_known(*alpha, #[trigger] elems@[j]) by {
                if j < i {
                    lemma_elem_known_stable(a1, *alpha, elems@[j]);
                }
            }
        }
        i = i + 1;
    }
}

/// Intern every literal symbol of a rule (left-hand side, right-hand side,
/// contexts), so that every stage sees the same Σ.
pub(crate) fn intern_rule_literals(rule: &PhonRewriteRule, alpha: &mut PhonruleAlphabet)
    requires
        old(alpha).wf(),
    ensures
        alphabet_extends(*old(alpha), *final(alpha)),
        rule_chars_known(*final(alpha), *rule),
{
    proof {
        lemma_extends_refl(*alpha);
    }
    let ghost a0 = *alpha;
    match &rule.from {
        PhonPattern::Literal(lit) => intern_str_chars(lit.node.as_str(), alpha),
        PhonPattern::Class(_) => {},
        PhonPattern::Range(elems) => intern_context_elems(elems, alpha),
    }
    let ghost a1 = *alpha;
    match &rule.to {
        PhonReplacement::Literal(lit) => intern_str_chars(lit.node.as_str(), alpha),
        _ => {
            proof {
                lemma_extends_refl(*alpha);
            }
        },
    }
    let ghost a2 = *alpha;
    proof {
        lemma_extends_trans(a0, a1, a2);
    }
    match &rule.context {
        Some(ctx) => {
            intern_context_elems(&ctx.left, alpha);
            let ghost a3 = *alpha;
            intern_context_elems(&ctx.right, alpha);
            proof {
                lemma_extends_trans(a0, a2, a3);
                lemma_extends_trans(a0, a3, *alpha);
                lemma_extends_trans(a1, a2, a3);
                lemma_extends_trans(a1, a3, *alpha);
                lemma_extends_trans(a2, a3, *alpha);
                lemma_seq_known_stable(a3, *alpha, ctx.left@);
            }
        },
        None => {
            proof {
                lemma_extends_refl(*alpha);
            }
        },
    }
    proof {
        match &rule.from {
            PhonPattern::Literal(l) => lemma_str_known_stable(a1, *alpha, l.node@),
            PhonPattern::Range(elems) => lemma_seq_known_stable(a1, *alpha, elems@),
            _ => {},
        }
        match &rule.to {
            PhonReplacement::Literal(l) => lemma_str_known_stable(a2, *alpha, l.node@),
            _ => {},
        }
    }
}

/// The right-hand side names a map that is not in `map_table`.
pub open spec fn map_missing(to: PhonReplacement, map_table: FstTable) -> bool {
    to matches PhonReplacement::MapCall(id) && map_table.spec_get(id.node@) is None
}

/// A map right-hand side over a left-hand side of more than one symbol.
pub open spec fn multi_symbol_map(rule: PhonRewriteRule) -> bool {
    rule.to is MapCall && !single_symbol_lhs(rule.from)
}

/// What the bracketed construction returns for a rule: a `Context` failure
/// of the constraint exactly when the left-hand side or a context does not
/// compile; otherwise an unknown map fails the replacement stage, then a
/// map over a multi-symbol left-hand side fails the filter, and every
/// other rule compiles.
pub open spec fn bracketed_outcome(
    rule: PhonRewriteRule,
    class_table: FstTable,
    map_table: FstTable,
    r: Result<Fst, RewriteCompileError>,
) -> bool {
    &&& (r matches Err(RewriteCompileError::Constraint(ConstraintCompileError::Context(_))) <==> !rule_resolves(
        rule,
        class_table,
    ))
    &&& ((r is Err && r->Err_0 is Replacement) <==> rule_resolves(rule, class_table) && map_missing(rule.to, map_table))
    &&& (r matches Err(RewriteCompileError::Replacement(e)) ==> e is UnknownMap)
    &&& ((r is Err && r->Err_0 is Leftmost) <==> rule_resolves(rule, class_table) && !map_missing(rule.to, map_table)
        && multi_symbol_map(rule))
    &&& (r matches Err(RewriteCompileError::Leftmost(e)) ==> e == LeftmostCompileError::MapWithMultiSymbolLhs)
    &&& !(r is Err && r->Err_0 is DirectedReplace)
    &&& !(r matches Err(RewriteCompileError::Constraint(ConstraintCompileError::Backend(_))))
    &&& (r is Ok <==> (rule_resolves(rule, class_table) && !map_missing(rule.to, map_table) && !multi_symbol_map(rule)))
}

/// `a ∘ b`, with the arc sorting the composition expects.
pub(crate) fn compose_sorted(a: &Fst, b: &Fst) -> (r: Fst)
    requires
        a.wf(),
        b.wf(),
    ensures
        r.wf(),
        forall|x: Seq<Label>, z: Seq<Label>|
            #[trigger] accepts(r, x, z) <==> exists|y: Seq<Label>| accepts(*a, x, y) && accepts(*b, y, z),
{
    let sa = arc_sort_output(a);
    let sb = arc_sort_input(b);
    let r = compose(&sa, &sb);
    proof {
        assert forall|x: Seq<Label>, z: Seq<Label>|
            #[trigger] accepts(r, x, z) <==> exists|y: Seq<Label>| accepts(*a, x, y) && accepts(*b, y, z) by {
            super::super::laws::lemma_compose_language(sa, sb, r, x, z);
            assert forall|y: Seq<Label>| accepts(sa, x, y) == accepts(*a, x, y) && accepts(sb, y, z) == accepts(*b, y, z) by {
                super::super::laws::lemma_same_shape_accepts(sa, *a, x, y);
                super::super::laws::lemma_same_shape_accepts(sb, *b, y, z);
            }
        }
    }
    r
}

/// `f` is the bracketed pipeline `intro ∘ c ∘ p ∘ l ∘ strip` over Σ of
/// `alpha`: the bracket inserter, the constraint `c` (over the alphabet
/// `ac` it was built with), the replacement transducer `p` (over the
/// alphabet `ap` it was built with, replacing by
/// `lr` what the left-hand side `lhs` matches), the longest-leftmost
/// filter `l` (copying `v` between cells whose bracketed part `rhs`
/// maps), and the bracket stripper.
pub open spec fn bracketed_pipeline(
    f: Fst,
    alpha: PhonruleAlphabet,
    rule: PhonRewriteRule,
    class_table: FstTable,
    map_table: FstTable,
    parts: (Fst, Fst, Fst, Fst, Fst, Fst, Fst, (PhonruleAlphabet, PhonruleAlphabet), Fst, Fst, Seq<Label>, Fst),
) -> bool {
    let (intro, c, p, l, s1, s2, s3, alphas, lhs, lr, v, rhs) = parts;
    let (ac, ap) = alphas;
    &&& is_loop_machine(intro, intro_pairs(alpha.sigma_seq()))
    &&& exists|cp: (Fst, Fst, Seq<Label>, Fst, Fst, Fst)| #[trigger] constraint_parts(c, ac, cp)
    &&& composed(s1, intro, c)
    &&& composed(s2, s1, p)
    &&& composed(s3, s2, l)
    &&& exists|strip: Fst| is_loop_machine(strip, strip_pairs(alpha.sigma_seq())) && #[trigger] composed(f, s3, strip)
    &&& lhs_of(rule.from, class_table, lhs)
    &&& maps_through(rule.to, map_table, lhs, lr)
    &&& replaces_with(p, ap, lr)
    &&& sigma_hat(alpha, v)
    &&& filters_with(l, v, rhs)
}

/// Compile a rewrite rule with the bracketed construction:
/// `intro_brackets ∘ constraint ∘ replacement ∘ leftmost ∘ strip_brackets`,
/// after interning every literal symbol of the rule.
///
/// Fails with the first failing stage: the constraint, the replacement,
/// then the longest-leftmost filter.
pub fn compile_rewrite_rule(
    rule: &PhonRewriteRule,
    alpha: &mut PhonruleAlphabet,
    class_table: &FstTable,
    map_table: &FstTable,
) -> (r: Result<Fst, RewriteCompileError>)
    requires
        old(alpha).wf(),
        class_table.wf(),
        map_table.wf(),
        pattern_bounds_ok(rule.from),
        context_bounds_ok(*rule),
    ensures
        alphabet_extends(*old(alpha), *final(alpha)),
        r matches Ok(f) ==> f.wf(),
        bracketed_outcome(*rule, *class_table, *map_table, r),
        r matches Ok(f) ==> exists|parts: (Fst, Fst, Fst, Fst, Fst, Fst, Fst, (PhonruleAlphabet, PhonruleAlphabet), Fst, Fst, Seq<Label>, Fst)|
            #[trigger] bracketed_pipeline(f, *final(alpha), *rule, *class_table, *map_table, parts),
{
    let ghost a0 = *alpha;
    intern_rule_literals(rule, alpha);
    let ghost a1 = *alpha;
    let c = build_obligatory_constraint(rule, alpha, class_table);
    let ghost a2 = *alpha;
    proof {
        lemma_extends_trans(a0, a1, a2);
    }
    let constraint = match c {
        Ok(f) => f,
        Err(e) => {
            return Err(RewriteCompileError::Constraint(e));
        },
    };
    let rp = build_replacement_transducer(rule, alpha, class_table, map_table);
    let ghost a3 = *alpha;
    proof {
        lemma_extends_trans(a0, a2, a3);
    }
    let replacement = match rp {
        Ok(f) => f,
        Err(e) => {
            return Err(RewriteCompileError::Replacement(e));
        },
    };
    let lm = build_longest_leftmost_filter(rule, alpha, class_table, map_table);
    proof {
        lemma_extends_trans(a0, a3, *alpha);
    }
    let leftmost = match lm {
        Ok(f) => f,
        Err(e) => {
            return Err(RewriteCompileError::Leftmost(e));
        },
    };
    let intro = intro_brackets(alpha);
    let strip = strip_brackets(alpha);
    let s1 = compose_sorted(&intro, &constraint);
    let s2 = compose_sorted(&s1, &replacement);
    let s3 = compose_sorted(&s2, &leftmost);
    let f = compose_sorted(&s3, &strip);
    proof {
        let (lhs, lr) = choose|lhs: Fst, lr: Fst|
            lhs_of(rule.from, *class_table, lhs) && #[trigger] maps_through(rule.to, *map_table, lhs, lr) && replaces_with(
                replacement,
                a3,
                lr,
            );
        let (v, rhs) = choose|v: Seq<Label>, rhs: Fst| sigma_hat(*alpha, v) && #[trigger] filters_with(leftmost, v, rhs);
        assert(composed(f, s3, strip));
        let cp = choose|cp: (Fst, Fst, Seq<Label>, Fst, Fst, Fst)| #[trigger] constraint_parts(constraint, a2, cp);
        assert(constraint_parts(constraint, a2, cp));
        let parts = (intro, constraint, replacement, leftmost, s1, s2, s3, (a2, a3), lhs, lr, v, rhs);
        assert(parts.7.0 == a2 && parts.7.1 == a3 && parts.1 == constraint);
        assert(exists|cp: (Fst, Fst, Seq<Label>, Fst, Fst, Fst)| #[trigger] constraint_parts(parts.1, parts.7.0, cp));
        assert(replaces_with(parts.2, parts.7.1, parts.9));
        assert(composed(s1, intro, constraint));
        assert(composed(s2, s1, replacement));
        assert(composed(s3, s2, leftmost));
        assert(bracketed_pipeline(f, *alpha, *rule, *class_table, *map_table, (intro, constraint, replacement, leftmost, s1, s2, s3, (a2, a3), lhs, lr, v, rhs)));
    }
    Ok(f)
}

/// `f` is a rewrite rule's machine over the alphabet `a`: the directed
/// construction's (unless the bracketed one is forced), or the bracketed
/// pipeline.
pub open spec fn rewrite_machine(
    f: Fst,
    rule: PhonRewriteRule,
    a: PhonruleAlphabet,
    class_table: FstTable,
    class_members: ClassMembers,
    map_table: FstTable,
    bracketed: bool,
) -> bool {
    ||| (!bracketed && directed_pipeline(f, rule, a, class_members, map_table))
    ||| exists|
        parts: (Fst, Fst, Fst, Fst, Fst, Fst, Fst, (PhonruleAlphabet, PhonruleAlphabet), Fst, Fst, Seq<Label>, Fst),
    | #[trigger] bracketed_pipeline(f, a, rule, class_table, map_table, parts)
}

/// The rule compiles: its classes (in both tables the constructions use)
/// and its map resolve, and a map is not applied over a multi-symbol
/// left-hand side.
pub open spec fn rewrite_ok(
    rule: PhonRewriteRule,
    class_table: FstTable,
    class_members: ClassMembers,
    map_table: FstTable,
    bracketed: bool,
) -> bool {
    &&& rule_resolves(rule, class_table)
    &&& !map_missing(rule.to, map_table)
    &&& !multi_symbol_map(rule)
    &&& (!bracketed ==> directed_known(rule, class_members))
}

/// Compile a rewrite rule, choosing the construction.
///
/// With `force_strategy_b` the bracketed construction
/// ([`compile_rewrite_rule`]) is used. Otherwise the directed
/// construction is tried first; where it refuses the rule's shape, the
/// bracketed construction compiles that rule instead, and any other
/// failure of the directed construction is returned as
/// [`RewriteCompileError::DirectedReplace`].
pub fn compile_rewrite_rule_dispatch(
    rule: &PhonRewriteRule,
    alpha: &mut PhonruleAlphabet,
    class_table: &FstTable,
    class_members: &ClassMembers,
    map_table: &FstTable,
    opts: RewriteEngineOptions,
) -> (r: Result<Fst, RewriteCompileError>)
    requires
        old(alpha).wf(),
        class_table.wf(),
        map_table.wf(),
        rule_bounds_ok(*rule),
    ensures
        alphabet_extends(*old(alpha), *final(alpha)),
        r matches Ok(f) ==> f.wf(),
        (r is Err && r->Err_0 is DirectedReplace) ==> (!opts.force_strategy_b && !(r->Err_0->DirectedReplace_0 is UnsupportedShape)),
        (rule.from matches PhonPattern::Literal(l) && self_overlaps(l.node@)) ==> !(r is Err && r->Err_0 is DirectedReplace),
        unsupported_lhs(rule.from) ==> !(r is Err && r->Err_0 is DirectedReplace),
        single_atom_refused(rule.from) ==> !(r is Err && r->Err_0 is DirectedReplace),
        (opts.force_strategy_b || unsupported_lhs(rule.from) || single_atom_refused(rule.from) || (rule.from matches PhonPattern::Literal(l)
            && self_overlaps(l.node@))) ==> bracketed_outcome(*rule, *class_table, *map_table, r),
        (opts.force_strategy_b || unsupported_lhs(rule.from) || single_atom_refused(rule.from) || (rule.from matches PhonPattern::Literal(l)
            && self_overlaps(l.node@))) ==> (r matches Ok(f) ==> exists|
            parts: (Fst, Fst, Fst, Fst, Fst, Fst, Fst, (PhonruleAlphabet, PhonruleAlphabet), Fst, Fst, Seq<Label>, Fst),
        | #[trigger] bracketed_pipeline(f, *final(alpha), *rule, *class_table, *map_table, parts)),
        r matches Ok(f) ==> rewrite_machine(f, *rule, *final(alpha), *class_table, *class_members, *map_table, opts.force_strategy_b),
        rewrite_ok(*rule, *class_table, *class_members, *map_table, opts.force_strategy_b) ==> r is Ok,
        r matches Err(RewriteCompileError::DirectedReplace(e)) ==> ((e is UnknownClass && !directed_known(*rule, *class_members))
            || (e is UnknownMap && map_missing(rule.to, *map_table))),
{
    if opts.force_strategy_b {
        return compile_rewrite_rule(rule, alpha, class_table, map_table);
    }
    let ghost a0 = *alpha;
    let directed = build_directed_replacement(rule, alpha, class_members, map_table);
    match directed {
        Ok(f) => Ok(f),
        Err(DirectedReplaceError::UnsupportedShape(_)) => {
            let ghost a1 = *alpha;
            let r = compile_rewrite_rule(rule, alpha, class_table, map_table);
            proof {
                lemma_extends_trans(a0, a1, *alpha);
            }
            r
        },
        Err(e) => Err(RewriteCompileError::DirectedReplace(e)),
    }
}

} // verus!
