//! Compiling a whole phonrule: its rewrite statements and `apply` chain
//! composed, in body order, into one transducer.
//!
//! ```text
//!   compile_phonrule(P) = step_1 ∘ step_2 ∘ ... ∘ step_N
//!     step_i = the rewrite's transducer        for a rewrite statement
//!            = compile_phonrule(Q)             for `apply Q`
//! ```
//!
//! One application of the result is one pass through the body; iterating
//! to a fixed point is the apply driver's work. Class and map tables are
//! local to each phonrule. An `apply` naming a phonrule that is already
//! being compiled further up the chain is a cycle.

use vstd::prelude::*;

use crate::ast::{CharClassBody, CharClassDef, PhonBodyItem, PhonMapArm, PhonMapBody, PhonMapDef, PhonMapElse, PhonMapResult, PhonPattern, PhonRewriteRule, PhonRule};
use crate::text::{str_eq, str_to_owned};
use super::super::alphabet::PhonruleAlphabet;
use super::super::backend::{first_index, Label};
use super::super::machine::{accepts, identity_pairs, is_loop_machine, loop_machine, Fst};
use super::super::table::{
    lemma_first_index_push_new, lemma_first_index_push_other, ClassMembers, FstTable,
};
use super::super::backend::lemma_first_index;
use super::brackets::{marker_pairs, pairs_with};
use super::class::{alphabet_extends, class_resolves, ident_names, lemma_extends_refl, lemma_extends_trans, ClassCompileError};
use super::constraint::ConstraintCompileError;
use super::context::{compile_class_and_complement, seq_bounds_hold, ContextCompileError};
use super::directed_replace::rule_bounds_ok;
use super::map::{compile_map, is_map_machine};
use super::class::compile_class;
use super::replace::{
    bracketed_pipeline, compile_rewrite_rule_dispatch, rewrite_machine, rewrite_ok, compose_sorted, intern_rule_literals, intern_str_chars, lemma_rule_known_stable,
    lemma_str_known_stable, rule_chars_known, str_chars_known, RewriteCompileError, RewriteEngineOptions,
};

verus! {

/// Error compiling a phonrule.
#[derive(Debug, Clone, PartialEq, Eq)]
pub enum RuleSeqCompileError {
    /// An `apply` names a phonrule the resolver does not know.
    UnknownPhonrule { name: String },
    /// The `apply` chain returns to a phonrule already being compiled;
    /// `path` lists the chain, ending with the repeated name.
    ApplyCycle { path: Vec<String> },
    /// A class definition did not compile.
    Class(ClassCompileError),
    /// A rewrite statement did not compile.
    Rewrite(RewriteCompileError),
}

impl RuleSeqCompileError {
    /// The message shown for this error.
    pub open spec fn msg(&self) -> Seq<char> {
        match self {
            RuleSeqCompileError::UnknownPhonrule { name } => "phonrule '"@ + name@ + "' referenced in 'apply' but not found in resolver"@,
            RuleSeqCompileError::ApplyCycle { path } => "apply-chain cycle detected: "@ + crate::text::joined(path@.map_values(|p: String| p@), " -> "@),
            RuleSeqCompileError::Class(e) => e.msg(),
            RuleSeqCompileError::Rewrite(e) => e.msg(),
        }
    }

    /// The message shown for this error.
    pub fn message(&self) -> (s: String)
        ensures
            s@ == self.msg(),
    {
        match self {
            RuleSeqCompileError::UnknownPhonrule { name } => {
                let mut out = String::new();
                crate::text::string_push_str(&mut out, "phonrule '");
                crate::text::string_push_str(&mut out, name.as_str());
                crate::text::string_push_str(&mut out, "' referenced in 'apply' but not found in resolver");
                out
            },
            RuleSeqCompileError::ApplyCycle { path } => {
                let mut out = String::new();
                crate::text::string_push_str(&mut out, "apply-chain cycle detected: ");
                crate::text::push_joined(&mut out, path, " -> ");
                out
            },
            RuleSeqCompileError::Class(e) => e.message(),
            RuleSeqCompileError::Rewrite(e) => e.message(),
        }
    }
}

/// Looks phonrules up by name for `apply` statements.
pub trait PhonRuleAstResolver {
    /// The phonrule named `name`, if known.
    fn resolve(&self, name: &str) -> Option<&PhonRule>;
}

/// Every rewrite statement of the phonrule has ordered quantifier bounds.
pub open spec fn phonrule_bounds_ok(p: PhonRule) -> bool {
    forall|i: int|
        0 <= i < p.body@.len() ==> (#[trigger] p.body@[i] matches PhonBodyItem::Rewrite(r) ==> rule_bounds_ok(r))
}

/// Whether the rewrite statement has ordered quantifier bounds.
pub fn rule_bounds_hold(rule: &PhonRewriteRule) -> (b: bool)
    ensures
        b == rule_bounds_ok(*rule),
{
    let from_ok = match &rule.from {
        PhonPattern::Range(elems) => seq_bounds_hold(elems),
        _ => true,
    };
    if !from_ok {
        return false;
    }
    match &rule.context {
        Some(ctx) => seq_bounds_hold(&ctx.left) && seq_bounds_hold(&ctx.right),
        None => true,
    }
}

/// Whether every rewrite statement of the phonrule has ordered quantifier
/// bounds.
pub fn phonrule_bounds_hold(p: &PhonRule) -> (b: bool)
    ensures
        b == phonrule_bounds_ok(*p),
{
    let mut i: usize = 0;
    while i < p.body.len()
        invariant
            i <= p.body@.len(),
            forall|j: int| 0 <= j < i ==> (#[trigger] p.body@[j] matches PhonBodyItem::Rewrite(r) ==> rule_bounds_ok(r)),
        decreases p.body@.len() - i,
    {
        match &p.body[i] {
            PhonBodyItem::Rewrite(r) => {
                if !rule_bounds_hold(r) {
                    return false;
                }
            },
            _ => {},
        }
        i = i + 1;
    }
    true
}

/// Phonrules by name; a name resolves to its first entry.
#[derive(Debug, Clone)]
pub struct PhonRuleTable {
    pub entries: Vec<(String, PhonRule)>,
}

impl PhonRuleTable {
    /// The names, in entry order.
    pub open spec fn keys(&self) -> Seq<Seq<char>> {
        self.entries@.map_values(|e: (String, PhonRule)| e.0@)
    }

    /// The phonrule stored under `name`, if any.
    pub open spec fn spec_get(&self, name: Seq<char>) -> Option<PhonRule> {
        match first_index(self.keys(), name) {
            Some(i) => Some(self.entries@[i].1),
            None => None,
        }
    }

    /// Every stored phonrule has ordered quantifier bounds.
    pub open spec fn wf(&self) -> bool {
        forall|i: int| 0 <= i < self.entries@.len() ==> phonrule_bounds_ok(#[trigger] self.entries@[i].1)
    }

    /// Whether every stored phonrule has ordered quantifier bounds.
    pub fn bounds_hold(&self) -> (b: bool)
        ensures
            b == self.wf(),
    {
        let mut i: usize = 0;
        while i < self.entries.len()
            invariant
                i <= self.entries@.len(),
                forall|j: int| 0 <= j < i ==> phonrule_bounds_ok(#[trigger] self.entries@[j].1),
            decreases self.entries@.len() - i,
        {
            if !phonrule_bounds_hold(&self.entries[i].1) {
                return false;
            }
            i = i + 1;
        }
        true
    }

    /// The empty table.
    pub fn new() -> (t: Self)
        ensures
            t.wf(),
            forall|n: Seq<char>| t.spec_get(n) is None,
    {
        PhonRuleTable { entries: Vec::new() }
    }

    /// Index of the entry `name` resolves to.
    fn find(&self, name: &str) -> (r: Option<usize>)
        ensures
            match r {
                Some(i) => first_index(self.keys(), name@) == Some(i as int) && (i as int) < self.entries@.len(),
                None => first_index(self.keys(), name@) is None,
            },
    {
        proof {
            lemma_first_index(self.keys(), name@);
        }
        let mut i: usize = 0;
        while i < self.entries.len()
            invariant
                i <= self.entries@.len(),
                self.keys().len() == self.entries@.len(),
                forall|j: int| 0 <= j < i ==> self.keys()[j] != name@,
                match first_index(self.keys(), name@) {
                    Some(k) => 0 <= k < self.keys().len() && self.keys()[k] == name@
                        && forall|j: int| 0 <= j < k ==> self.keys()[j] != name@,
                    None => forall|j: int| 0 <= j < self.keys().len() ==> self.keys()[j] != name@,
                },
            decreases self.entries@.len() - i,
        {
            if str_eq(self.entries[i].0.as_str(), name) {
                assert(self.keys()[i as int] == name@);
                return Some(i);
            }
            assert(self.keys()[i as int] == self.entries@[i as int].0@);
            i = i + 1;
        }
        None
    }

    /// Store `rule` under `name`, replacing what was stored there.
    pub fn insert(&mut self, name: String, rule: PhonRule)
        requires
            old(self).wf(),
            phonrule_bounds_ok(rule),
        ensures
            final(self).wf(),
            final(self).spec_get(name@) == Some(rule),
            forall|n: Seq<char>| n != name@ ==> #[trigger] final(self).spec_get(n) == old(self).spec_get(n),
    {
        let ghost k0 = self.keys();
        proof {
            lemma_first_index(k0, name@);
        }
        match self.find(name.as_str()) {
            Some(i) => {
                self.entries.set(i, (name, rule));
                proof {
                    assert(self.keys() =~= k0);
                    assert forall|n: Seq<char>| n != name@ implies #[trigger] self.spec_get(n) == old(self).spec_get(n) by {
                        lemma_first_index(k0, n);
                        if first_index(k0, n) is Some {
                            let j = first_index(k0, n)->0;
                            assert(k0[i as int] == name@);
                            assert(self.entries@[j] == old(self).entries@[j]);
                        }
                    }
                }
            },
            None => {
                self.entries.push((name, rule));
                proof {
                    assert(self.keys() =~= k0.push(name@));
                    assert forall|n: Seq<char>| n != name@ implies #[trigger] self.spec_get(n) == old(self).spec_get(n) by {
                        lemma_first_index_push_other(k0, name@, n);
                        lemma_first_index(k0, n);
                        if first_index(k0, n) is Some {
                            let j = first_index(k0, n)->0;
                            assert(self.entries@[j] == old(self).entries@[j]);
                        }
                    }
                    lemma_first_index_push_new(k0, name@);
                }
            },
        }
    }
}

impl PhonRuleAstResolver for PhonRuleTable {
    fn resolve(&self, name: &str) -> (r: Option<&PhonRule>)
        ensures
            match self.spec_get(name@) {
                Some(p) => r is Some && *r->0 == p,
                None => r is None,
            },
    {
        match self.find(name) {
            Some(i) => Some(&self.entries[i].1),
            None => None,
        }
    }
}

/// The names held by a sequence of strings.
pub open spec fn name_views(v: Seq<String>) -> Seq<Seq<char>> {
    v.map_values(|s: String| s@)
}

/// The `j`-th member of the class `name` in `prior` is `x`.
pub open spec fn union_member_at(prior: ClassMembers, name: Seq<char>, j: int, x: Seq<char>) -> bool {
    match prior.spec_get(name) {
        Some(m) => 0 <= j < m.len() && m[j]@ == x,
        None => false,
    }
}

/// `x` is a member of the class: a listed literal, or a member of a class
/// the union names that `prior` already holds.
pub open spec fn is_class_member(class: CharClassDef, prior: ClassMembers, x: Seq<char>) -> bool {
    match class.body {
        CharClassBody::List(ms) => exists|i: int| 0 <= i < ms@.len() && (#[trigger] ms@[i]).node@ == x,
        CharClassBody::Union(ns) => exists|i: int, j: int|
            0 <= i < ns@.len() && #[trigger] union_member_at(prior, ns@[i].node@, j, x),
    }
}

/// Append `s` to `out` unless it is already there.
fn push_unique(s: &str, out: &mut Vec<String>)
    requires
        name_views(old(out)@).no_duplicates(),
    ensures
        name_views(final(out)@).no_duplicates(),
        forall|x: Seq<char>| name_views(final(out)@).contains(x) <==> (name_views(old(out)@).contains(x) || x == s@),
{
    let mut i: usize = 0;
    while i < out.len()
        invariant
            i <= out@.len(),
            out@ == old(out)@,
            name_views(old(out)@).no_duplicates(),
            forall|j: int| 0 <= j < i ==> out@[j]@ != s@,
        decreases out@.len() - i,
    {
        if str_eq(out[i].as_str(), s) {
            proof {
                assert(name_views(out@)[i as int] == s@);
            }
            return;
        }
        i = i + 1;
    }
    let ghost o = name_views(out@);
    out.push(str_to_owned(s));
    proof {
        assert(name_views(out@) =~= o.push(s@));
        assert(!o.contains(s@)) by {
            if o.contains(s@) {
                let j = choose|j: int| 0 <= j < o.len() && o[j] == s@;
                assert(out@[j]@ == s@);
            }
        }
        assert forall|x: Seq<char>| name_views(out@).contains(x) <==> (o.contains(x) || x == s@) by {
            if name_views(out@).contains(x) {
                let j = choose|j: int| 0 <= j < o.len() + 1 && o.push(s@)[j] == x;
                if j < o.len() {
                    assert(o[j] == x);
                }
            }
            if o.contains(x) {
                let j = choose|j: int| 0 <= j < o.len() && o[j] == x;
                assert(o.push(s@)[j] == x);
            }
            if x == s@ {
                assert(o.push(s@)[o.len() as int] == x);
            }
        }
    }
}

/// The member names of a class, each once, in first-occurrence order: a
/// list's literals, or the members of the classes a union names (classes
/// defined earlier, held in `prior`; an unknown name contributes nothing).
fn resolve_class_members(class: &CharClassDef, prior: &ClassMembers) -> (out: Vec<String>)
    ensures
        name_views(out@).no_duplicates(),
        forall|x: Seq<char>| name_views(out@).contains(x) <==> is_class_member(*class, *prior, x),
{
    let mut out: Vec<String> = Vec::new();
    match &class.body {
        CharClassBody::List(members) => {
            let mut i: usize = 0;
            while i < members.len()
                invariant
                    i <= members@.len(),
                    class.body == CharClassBody::List(*members),
                    name_views(out@).no_duplicates(),
                    forall|x: Seq<char>| name_views(out@).contains(x) <==> exists|k: int| 0 <= k < i && (#[trigger] members@[k]).node@ == x,
                decreases members@.len() - i,
            {
                push_unique(members[i].node.as_str(), &mut out);
                proof {
                    assert forall|x: Seq<char>| name_views(out@).contains(x) <==> exists|k: int| 0 <= k < i + 1 && (#[trigger] members@[k]).node@ == x by {
                        if x == members@[i as int].node@ {
                            assert(members@[i as int].node@ == x);
                        }
                    }
                }
                i = i + 1;
            }
        },
        CharClassBody::Union(names) => {
            let mut i: usize = 0;
            while i < names.len()
                invariant
                    i <= names@.len(),
                    class.body == CharClassBody::Union(*names),
                    name_views(out@).no_duplicates(),
                    forall|x: Seq<char>| #[trigger] name_views(out@).contains(x) <==> exists|k: int, j: int|
                        0 <= k < i && #[trigger] union_member_at(*prior, names@[k].node@, j, x),
                decreases names@.len() - i,
            {
                match prior.get(names[i].node.as_str()) {
                    Some(members) => {
                        let ghost o0 = name_views(out@);
                        let mut j: usize = 0;
                        while j < members.len()
                            invariant
                                j <= members@.len(),
                                i < names@.len(),
                                prior.spec_get(names@[i as int].node@) == Some(members@),
                                forall|x: Seq<char>| #[trigger] o0.contains(x) <==> exists|k: int, t: int|
                                    0 <= k < i && #[trigger] union_member_at(*prior, names@[k].node@, t, x),
                                name_views(out@).no_duplicates(),
                                forall|x: Seq<char>| #[trigger] name_views(out@).contains(x) <==> (o0.contains(x) || exists|t: int| 0 <= t < j && (#[trigger] members@[t])@ == x),
                            decreases members@.len() - j,
                        {
                            let ghost o1 = name_views(out@);
                            let ghost sj = members@[j as int]@;
                            push_unique(members[j].as_str(), &mut out);
                            proof {
                                assert forall|x: Seq<char>| name_views(out@).contains(x) <==> (o0.contains(x) || exists|t: int| 0 <= t < j + 1 && (#[trigger] members@[t])@ == x) by {
                                    assert(name_views(out@).contains(x) <==> (o1.contains(x) || x == sj));
                                    assert(o1.contains(x) <==> (o0.contains(x) || exists|t: int| 0 <= t < j && (#[trigger] members@[t])@ == x));
                                    if exists|t: int| 0 <= t < j + 1 && (#[trigger] members@[t])@ == x {
                                        let t = choose|t: int| 0 <= t < j + 1 && (#[trigger] members@[t])@ == x;
                                        if t < j {
                                            assert(members@[t]@ == x);
                                            assert(exists|t2: int| 0 <= t2 < j && (#[trigger] members@[t2])@ == x);
                                        } else {
                                            assert(x == sj);
                                        }
                                    }
                                    if x == sj {
                                        assert(members@[j as int]@ == x);
                                    }
                                    if exists|t: int| 0 <= t < j && (#[trigger] members@[t])@ == x {
                                        let t = choose|t: int| 0 <= t < j && (#[trigger] members@[t])@ == x;
                                        assert(members@[t]@ == x);
                                    }
                                }
                            }
                            j = j + 1;
                        }
                        proof {
                            assert forall|x: Seq<char>| name_views(out@).contains(x) <==> exists|k: int, t: int|
                                0 <= k < i + 1 && #[trigger] union_member_at(*prior, names@[k].node@, t, x) by {
                                if exists|t: int| 0 <= t < members@.len() && (#[trigger] members@[t])@ == x {
                                    let t = choose|t: int| 0 <= t < members@.len() && (#[trigger] members@[t])@ == x;
                                    assert(union_member_at(*prior, names@[i as int].node@, t, x));
                                }
                                if exists|k: int, t: int|
                                    0 <= k < i + 1 && #[trigger] union_member_at(*prior, names@[k].node@, t, x) {
                                    let (k, t) = choose|k: int, t: int|
                                        0 <= k < i + 1 && #[trigger] union_member_at(*prior, names@[k].node@, t, x);
                                    if k == i {
                                        assert(members@[t]@ == x);
                                    }
                                }
                            }
                        }
                    },
                    None => {
                        proof {
                            assert forall|x: Seq<char>| name_views(out@).contains(x) <==> exists|k: int, t: int|
                                0 <= k < i + 1 && #[trigger] union_member_at(*prior, names@[k].node@, t, x) by {
                                if exists|k: int, t: int|
                                    0 <= k < i + 1 && #[trigger] union_member_at(*prior, names@[k].node@, t, x) {
                                    let (k, t) = choose|k: int, t: int|
                                        0 <= k < i + 1 && #[trigger] union_member_at(*prior, names@[k].node@, t, x);
                                    assert(k != i);
                                }
                            }
                        }
                    },
                }
                i = i + 1;
            }
        },
    }
    out
}

/// A copy of the names.
fn copy_names(v: &Vec<String>) -> (r: Vec<String>)
    ensures
        name_views(r@) == name_views(v@),
{
    let mut r: Vec<String> = Vec::new();
    let mut i: usize = 0;
    while i < v.len()
        invariant
            i <= v@.len(),
            name_views(r@) == name_views(v@.take(i as int)),
        decreases v@.len() - i,
    {
        r.push(str_to_owned(v[i].as_str()));
        proof {
            assert(name_views(v@.take(i + 1)) =~= name_views(v@.take(i as int)).push(v@[i as int]@));
        }
        i = i + 1;
    }
    proof {
        assert(v@.take(v@.len() as int) == v@);
    }
    r
}

/// Whether `name` is one of the names on `stack`.
fn on_stack(stack: &Vec<String>, name: &str) -> (b: bool)
    ensures
        b == name_views(stack@).contains(name@),
{
    let mut i: usize = 0;
    while i < stack.len()
        invariant
            i <= stack@.len(),
            forall|j: int| 0 <= j < i ==> stack@[j]@ != name@,
        decreases stack@.len() - i,
    {
        if str_eq(stack[i].as_str(), name) {
            proof {
                assert(name_views(stack@)[i as int] == name@);
            }
            return true;
        }
        i = i + 1;
    }
    proof {
        if name_views(stack@).contains(name@) {
            let j = choose|j: int| 0 <= j < stack@.len() && name_views(stack@)[j] == name@;
            assert(stack@[j]@ == name@);
        }
    }
    false
}

/// The class's listed members have their characters known.
pub open spec fn class_chars_known(alpha: PhonruleAlphabet, c: CharClassDef) -> bool {
    c.body matches CharClassBody::List(members) ==> forall|j: int|
        0 <= j < members@.len() ==> str_chars_known(alpha, (#[trigger] members@[j]).node@)
}

/// The map arm's literals have their characters known.
pub open spec fn arm_chars_known(alpha: PhonruleAlphabet, a: PhonMapArm) -> bool {
    &&& str_chars_known(alpha, a.from.node@)
    &&& (a.to matches PhonMapResult::Literal(l) ==> str_chars_known(alpha, l.node@))
}

/// The map's literals have their characters known.
pub open spec fn map_chars_known(alpha: PhonruleAlphabet, m: PhonMapDef) -> bool {
    let PhonMapBody::Match { arms, else_arm } = m.body;
    &&& forall|j: int| 0 <= j < arms@.len() ==> arm_chars_known(alpha, #[trigger] arms@[j])
    &&& (else_arm matches Some(PhonMapElse::Literal(l)) ==> str_chars_known(alpha, l.node@))
}

/// The body item's literals have their characters known.
pub open spec fn item_chars_known(alpha: PhonruleAlphabet, item: PhonBodyItem) -> bool {
    item matches PhonBodyItem::Rewrite(r) ==> rule_chars_known(alpha, r)
}

/// Every literal symbol of the phonrule (listed class members, map
/// literals, rewrite literals) has its characters known.
pub open spec fn phonrule_chars_known(alpha: PhonruleAlphabet, p: PhonRule) -> bool {
    &&& forall|i: int| 0 <= i < p.classes@.len() ==> class_chars_known(alpha, #[trigger] p.classes@[i])
    &&& forall|i: int| 0 <= i < p.maps@.len() ==> map_chars_known(alpha, #[trigger] p.maps@[i])
    &&& forall|i: int| 0 <= i < p.body@.len() ==> item_chars_known(alpha, #[trigger] p.body@[i])
}

proof fn lemma_class_known_stable(a1: PhonruleAlphabet, a2: PhonruleAlphabet, c: CharClassDef)
    requires
        class_chars_known(a1, c),
        alphabet_extends(a1, a2),
    ensures
        class_chars_known(a2, c),
{
    match c.body {
        CharClassBody::List(members) => {
            assert forall|j: int| 0 <= j < members@.len() implies str_chars_known(a2, (#[trigger] members@[j]).node@) by {
                lemma_str_known_stable(a1, a2, members@[j].node@);
            }
        },
        _ => {},
    }
}

proof fn lemma_map_known_stable(a1: PhonruleAlphabet, a2: PhonruleAlphabet, m: PhonMapDef)
    requires
        map_chars_known(a1, m),
        alphabet_extends(a1, a2),
    ensures
        map_chars_known(a2, m),
{
    let PhonMapBody::Match { arms, else_arm } = m.body;
    assert forall|j: int| 0 <= j < arms@.len() implies arm_chars_known(a2, #[trigger] arms@[j]) by {
        lemma_str_known_stable(a1, a2, arms@[j].from.node@);
        match arms@[j].to {
            PhonMapResult::Literal(l) => lemma_str_known_stable(a1, a2, l.node@),
            _ => {},
        }
    }
    match else_arm {
        Some(PhonMapElse::Literal(l)) => lemma_str_known_stable(a1, a2, l.node@),
        _ => {},
    }
}

/// Intern the literal symbols of a phonrule: the members of listed
/// classes, the literals of map arms, and every rewrite statement's
/// literals, so that every rule of the body sees the same Σ.
fn pre_intern_phonrule_literals(p: &PhonRule, alpha: &mut PhonruleAlphabet)
    requires
        old(alpha).wf(),
    ensures
        alphabet_extends(*old(alpha), *final(alpha)),
        phonrule_chars_known(*final(alpha), *p),
{
    proof {
        lemma_extends_refl(*alpha);
    }
    let ghost a0 = *alpha;
    let mut i: usize = 0;
    while i < p.classes.len()
        invariant
            i <= p.classes@.len(),
            a0.wf(),
            a0 == *old(alpha),
            alphabet_extends(a0, *alpha),
            forall|k: int| 0 <= k < i ==> class_chars_known(*alpha, #[trigger] p.classes@[k]),
        decreases p.classes@.len() - i,
    {
        let ghost ai = *alpha;
        match &p.classes[i].body {
            CharClassBody::List(members) => {
                let mut j: usize = 0;
                while j < members.len()
                    invariant
                        j <= members@.len(),
                        a0.wf(),
                        alphabet_extends(a0, *alpha),
                        alphabet_extends(ai, *alpha),
                        forall|k: int| 0 <= k < j ==> str_chars_known(*alpha, (#[trigger] members@[k]).node@),
                    decreases members@.len() - j,
                {
                    let ghost a1 = *alpha;
                    intern_str_chars(members[j].node.as_str(), alpha);
                    proof {
                        lemma_extends_trans(a0, a1, *alpha);
                        lemma_extends_trans(ai, a1, *alpha);
                        assert forall|k: int| 0 <= k < j + 1 implies str_chars_known(*alpha, (#[trigger] members@[k]).node@) by {
                            if k < j {
                                lemma_str_known_stable(a1, *alpha, members@[k].node@);
                            }
                        }
                    }
                    j = j + 1;
                }
            },
            CharClassBody::Union(_) => {
                proof {
                    lemma_extends_refl(*alpha);
                }
            },
        }
        proof {
            assert forall|k: int| 0 <= k < i + 1 implies class_chars_known(*alpha, #[trigger] p.classes@[k]) by {
                if k < i {
                    lemma_class_known_stable(ai, *alpha, p.classes@[k]);
                }
            }
        }
        i = i + 1;
    }
    let ghost a_c = *alpha;
    let mut i: usize = 0;
    while i < p.maps.len()
        invariant
            i <= p.maps@.len(),
            a0.wf(),
            a0 == *old(alpha),
            alphabet_extends(a0, *alpha),
            alphabet_extends(a_c, *alpha),
            forall|k: int| 0 <= k < i ==> map_chars_known(*alpha, #[trigger] p.maps@[k]),
        decreases p.maps@.len() - i,
    {
        let ghost ai = *alpha;
        let PhonMapBody::Match { arms, else_arm } = &p.maps[i].body;
        let mut j: usize = 0;
        while j < arms.len()
            invariant
                j <= arms@.len(),
                a0.wf(),
                alphabet_extends(a0, *alpha),
                alphabet_extends(ai, *alpha),
                forall|k: int| 0 <= k < j ==> arm_chars_known(*alpha, #[trigger] arms@[k]),
            decreases arms@.len() - j,
        {
            let ghost a1 = *alpha;
            intern_str_chars(arms[j].from.node.as_str(), alpha);
            let ghost a2 = *alpha;
            proof {
                lemma_extends_trans(a0, a1, a2);
                lemma_extends_trans(ai, a1, a2);
            }
            match &arms[j].to {
                PhonMapResult::Literal(l) => {
                    intern_str_chars(l.node.as_str(), alpha);
                    proof {
                        lemma_extends_trans(a0, a2, *alpha);
                        lemma_extends_trans(ai, a2, *alpha);
                    }
                },
                PhonMapResult::Var(_) => {
                    proof {
                        lemma_extends_refl(*alpha);
                    }
                },
            }
            proof {
                lemma_extends_trans(a1, a2, *alpha);
                lemma_str_known_stable(a2, *alpha, arms@[j as int].from.node@);
                assert forall|k: int| 0 <= k < j + 1 implies arm_chars_known(*alpha, #[trigger] arms@[k]) by {
                    if k < j {
                        lemma_str_known_stable(a1, *alpha, arms@[k].from.node@);
                        match arms@[k].to {
                            PhonMapResult::Literal(l) => lemma_str_known_stable(a1, *alpha, l.node@),
                            _ => {},
                        }
                    }
                }
            }
            j = j + 1;
        }
        let ghost a3 = *alpha;
        match else_arm {
            Some(PhonMapElse::Literal(l)) => {
                intern_str_chars(l.node.as_str(), alpha);
                proof {
                    lemma_extends_trans(a0, a3, *alpha);
                    lemma_extends_trans(ai, a3, *alpha);
                }
            },
            _ => {
                proof {
                    lemma_extends_refl(*alpha);
                }
            },
        }
        proof {
            lemma_extends_trans(a_c, ai, *alpha);
            assert forall|k: int| 0 <= k < arms@.len() implies arm_chars_known(*alpha, #[trigger] arms@[k]) by {
                lemma_str_known_stable(a3, *alpha, arms@[k].from.node@);
                match arms@[k].to {
                    PhonMapResult::Literal(l) => lemma_str_known_stable(a3, *alpha, l.node@),
                    _ => {},
                }
            }
            assert(map_chars_known(*alpha, p.maps@[i as int]));
            assert forall|k: int| 0 <= k < i + 1 implies map_chars_known(*alpha, #[trigger] p.maps@[k]) by {
                if k < i {
                    lemma_map_known_stable(ai, *alpha, p.maps@[k]);
                }
            }
        }
        i = i + 1;
    }
    let ghost a_m = *alpha;
    let mut i: usize = 0;
    while i < p.body.len()
        invariant
            i <= p.body@.len(),
            a0.wf(),
            a0 == *old(alpha),
            alphabet_extends(a0, *alpha),
            alphabet_extends(a_c, *alpha),
            alphabet_extends(a_m, *alpha),
            forall|k: int| 0 <= k < i ==> item_chars_known(*alpha, #[trigger] p.body@[k]),
        decreases p.body@.len() - i,
    {
        let ghost ai = *alpha;
        match &p.body[i] {
            PhonBodyItem::Rewrite(rule) => {
                intern_rule_literals(rule, alpha);
                proof {
                    lemma_extends_trans(a0, ai, *alpha);
                }
            },
            PhonBodyItem::Apply(_) => {
                proof {
                    lemma_extends_refl(*alpha);
                }
            },
        }
        proof {
            lemma_extends_trans(a_c, ai, *alpha);
            lemma_extends_trans(a_m, ai, *alpha);
            assert forall|k: int| 0 <= k < i + 1 implies item_chars_known(*alpha, #[trigger] p.body@[k]) by {
                if k < i {
                    match p.body@[k] {
                        PhonBodyItem::Rewrite(r) => lemma_rule_known_stable(ai, *alpha, r),
                        _ => {},
                    }
                }
            }
        }
        i = i + 1;
    }
    proof {
        assert forall|k: int| 0 <= k < p.classes@.len() implies class_chars_known(*alpha, #[trigger] p.classes@[k]) by {
            lemma_class_known_stable(a_c, *alpha, p.classes@[k]);
        }
        assert forall|k: int| 0 <= k < p.maps@.len() implies map_chars_known(*alpha, #[trigger] p.maps@[k]) by {
            lemma_map_known_stable(a_m, *alpha, p.maps@[k]);
        }
    }
}

/// The identity on Σ and the stream markers: one state, one self-loop
/// per symbol. Composed with any input it gives the input back.
pub(crate) fn build_identity_over_sigma(alpha: &PhonruleAlphabet) -> (f: Fst)
    ensures
        f.wf(),
        is_loop_machine(f, identity_pairs(alpha.sigma_seq()) + marker_pairs()),
{
    let sigma = alpha.sigma();
    let pairs = pairs_with(&sigma, &Vec::new());
    proof {
        assert(pairs@ =~= identity_pairs(alpha.sigma_seq()) + marker_pairs());
    }
    loop_machine(&pairs)
}

/// The class tables of a phonrule, built in definition order: each class's
/// acceptor under its name and its complement under `!name` (for the
/// bracketed construction), and each class's member names (for the
/// directed one).
/// `t` holds exactly the class keys of `p`: its class names and their `!`
/// keys.
pub open spec fn class_table_of(t: FstTable, p: PhonRule) -> bool {
    forall|n: Seq<char>| #[trigger] t.spec_get(n) is Some <==> class_key_before(p.classes@, p.classes@.len() as int, n)
}

/// `t` holds exactly the class names of `p`.
pub open spec fn members_table_of(t: ClassMembers, p: PhonRule) -> bool {
    forall|n: Seq<char>| #[trigger] t.spec_get(n) is Some <==> exists|j: int|
        0 <= j < p.classes@.len() && (#[trigger] p.classes@[j]).name.node@ == n
}

/// `k` is the last of the first `i` of `maps` named `n`.
pub open spec fn last_named_before(maps: Seq<PhonMapDef>, i: int, k: int, n: Seq<char>) -> bool {
    &&& 0 <= k < i <= maps.len()
    &&& maps[k].name.node@ == n
    &&& forall|j: int| k < j < i ==> (#[trigger] maps[j]).name.node@ != n
}

/// `k` is the last of `maps` named `n`.
pub open spec fn last_map_named(maps: Seq<PhonMapDef>, k: int, n: Seq<char>) -> bool {
    last_named_before(maps, maps.len() as int, k, n)
}

/// Under each name that `t` holds, a one-step transducer of the last map
/// of `p` with that name (over some alphabet).
pub open spec fn map_machines_of(t: FstTable, p: PhonRule) -> bool {
    forall|n: Seq<char>| #[trigger] t.spec_get(n) is Some ==> exists|k: int, a: PhonruleAlphabet, pairs: Seq<(Label, Label)>, texts: Seq<Seq<char>>|
        #![trigger is_map_machine(t.spec_get(n)->0, a, p.maps@[k], pairs, texts)]
        last_map_named(p.maps@, k, n) && is_map_machine(t.spec_get(n)->0, a, p.maps@[k], pairs, texts)
}

/// `t` holds exactly the map names of `p`, each under the machine of the
/// last map of `p` with that name.
pub open spec fn map_table_of(t: FstTable, p: PhonRule) -> bool {
    &&& forall|n: Seq<char>| #[trigger] t.spec_get(n) is Some <==> exists|i: int|
        0 <= i < p.maps@.len() && (#[trigger] p.maps@[i]).name.node@ == n
    &&& map_machines_of(t, p)
}

/// A rewrite statement of `p` compiles against the class, member and map
/// tables that `p`'s definitions give.
pub open spec fn rewrite_item_ok(p: PhonRule, rule: PhonRewriteRule, bracketed: bool) -> bool {
    forall|ct: FstTable, cm: ClassMembers, mt: FstTable|
        class_table_of(ct, p) && members_table_of(cm, p) && map_table_of(mt, p) ==> #[trigger] rewrite_ok(
            rule,
            ct,
            cm,
            mt,
            bracketed,
        )
}

/// The phonrule compiles: its classes refer only to earlier classes, each
/// rewrite statement compiles, and each `apply` names a phonrule of the
/// resolver that is not on the chain of phonrules being compiled (`stack`
/// and `p` itself) and compiles in turn; `depth` bounds the nesting.
pub open spec fn phonrule_ok(p: PhonRule, resolver: PhonRuleTable, stack: Seq<Seq<char>>, bracketed: bool, depth: nat) -> bool
    decreases depth,
{
    &&& classes_refs_known(p.classes@)
    &&& forall|i: int|
        0 <= i < p.body@.len() ==> match #[trigger] p.body@[i] {
            PhonBodyItem::Rewrite(rule) => rewrite_item_ok(p, rule, bracketed),
            PhonBodyItem::Apply(app) => {
                &&& depth > 0
                &&& resolver.spec_get(app.rule.node@) is Some
                &&& !stack.push(p.name.node@).contains(resolver.spec_get(app.rule.node@)->0.name.node@)
                &&& phonrule_ok(
                    resolver.spec_get(app.rule.node@)->0,
                    resolver,
                    stack.push(p.name.node@),
                    bracketed,
                    (depth - 1) as nat,
                )
            },
        }
}

/// After the first `k` classes the class table holds `n`: the name of one
/// of them, or `!` and that name.
pub open spec fn class_key_before(classes: Seq<CharClassDef>, k: int, n: Seq<char>) -> bool {
    exists|j: int|
        0 <= j < k && (n == (#[trigger] classes[j]).name.node@ || n == super::context::neg_key(classes[j].name.node@))
}

/// The `i`-th class, if a union, refers only to classes defined before it
/// (or to their complements).
pub open spec fn class_refs_before(classes: Seq<CharClassDef>, i: int) -> bool {
    match classes[i].body {
        CharClassBody::Union(refs) => forall|r: int|
            0 <= r < refs@.len() ==> class_key_before(classes, i, (#[trigger] refs@[r]).node@),
        CharClassBody::List(_) => true,
    }
}

/// Each of the first `k` classes refers only to classes defined before it.
pub open spec fn classes_refs_known_upto(classes: Seq<CharClassDef>, k: int) -> bool {
    forall|i: int| 0 <= i < k ==> #[trigger] class_refs_before(classes, i)
}

/// Every union class refers only to classes defined before it (or to
/// their complements).
pub open spec fn classes_refs_known(classes: Seq<CharClassDef>) -> bool {
    classes_refs_known_upto(classes, classes.len() as int)
}

#[verifier::rlimit(50)]
fn build_class_tables(p: &PhonRule, alpha: &mut PhonruleAlphabet) -> (r: Result<(FstTable, ClassMembers), RuleSeqCompileError>)
    requires
        old(alpha).wf(),
    ensures
        alphabet_extends(*old(alpha), *final(alpha)),
        r matches Ok(t) ==> t.0.wf(),
        r matches Ok(t) ==> forall|i: int| 0 <= i < p.classes@.len() ==> {
            let n = (#[trigger] p.classes@[i]).name.node@;
            &&& t.0.spec_get(n) is Some
            &&& t.0.spec_get(super::context::neg_key(n)) is Some
            &&& t.1.spec_get(n) is Some
        },
        r is Err ==> r->Err_0 is Class,
        r is Ok <==> classes_refs_known(p.classes@),
        r matches Ok(t) ==> class_table_of(t.0, *p) && members_table_of(t.1, *p),
        p.classes@.len() == 0 ==> r is Ok,
{
    proof {
        lemma_extends_refl(*alpha);
    }
    let ghost a0 = *alpha;
    let mut class_table = FstTable::new();
    let mut class_members = ClassMembers::new();
    let mut i: usize = 0;
    while i < p.classes.len()
        invariant
            i <= p.classes@.len(),
            a0.wf(),
            a0 == *old(alpha),
            alphabet_extends(a0, *alpha),
            class_table.wf(),
            forall|n: Seq<char>| #[trigger] class_members.spec_get(n) is Some <==> exists|j: int|
                0 <= j < i && (#[trigger] p.classes@[j]).name.node@ == n,
            forall|n: Seq<char>| #[trigger] class_table.spec_get(n) is Some <==> class_key_before(p.classes@, i as int, n),
            classes_refs_known_upto(p.classes@, i as int),
        decreases p.classes@.len() - i,
    {
        let class = &p.classes[i];
        proof {
            assert(p.classes@[i as int] == *class);
        }
        let members = resolve_class_members(class, &class_members);
        let ghost cm0 = class_members;
        class_members.insert(class.name.node.clone(), members);
        let ghost a1 = *alpha;
        let pos = compile_class(class, alpha, &class_table);
        let ghost a2 = *alpha;
        proof {
            lemma_extends_trans(a0, a1, a2);
        }
        proof {
            lemma_class_resolves_iff(p.classes@, i as int, class_table);
        }
        let pos = match pos {
            Ok(f) => f,
            Err(e) => {
                proof {
                    assert(!classes_refs_known_upto(p.classes@, i + 1));
                    if classes_refs_known(p.classes@) {
                        lemma_refs_known_prefix(p.classes@, i + 1, p.classes@.len() as int);
                    }
                }
                return Err(RuleSeqCompileError::Class(e));
            },
        };
        let ghost t0 = class_table;
        class_table.insert(class.name.node.clone(), pos);
        let ghost t1 = class_table;
        let both = compile_class_and_complement(class, alpha, &class_table);
        proof {
            lemma_extends_trans(a0, a2, *alpha);
        }
        match both {
            Ok((_, _, neg_name, neg)) => {
                class_table.insert(neg_name, neg);
                proof {
                    lemma_keys_step(p.classes@, i as int, t0, t1, class_table, neg_name@);
                }
                proof {
                    assert forall|n: Seq<char>| #[trigger] class_members.spec_get(n) is Some <==> exists|j: int|
                        0 <= j < i + 1 && (#[trigger] p.classes@[j]).name.node@ == n by {
                        if n != class.name.node@ {
                            assert(class_members.spec_get(n) == cm0.spec_get(n));
                            if exists|j: int| 0 <= j < i + 1 && (#[trigger] p.classes@[j]).name.node@ == n {
                                let j = choose|j: int| 0 <= j < i + 1 && (#[trigger] p.classes@[j]).name.node@ == n;
                                assert(j < i);
                            }
                        } else {
                            assert(p.classes@[i as int].name.node@ == n);
                        }
                    }
                }
            },
            Err(ContextCompileError::Class(c)) => {
                proof {
                    lemma_resolves_grows(*class, t0, t1);
                }
                return Err(RuleSeqCompileError::Class(c));
            },
            Err(other) => {
                proof {
                    lemma_resolves_grows(*class, t0, t1);
                }
                return Err(RuleSeqCompileError::Rewrite(RewriteCompileError::Constraint(ConstraintCompileError::Context(other))));
            },
        }
        i = i + 1;
    }
    proof {
        assert forall|k: int| 0 <= k < p.classes@.len() implies {
            let n = (#[trigger] p.classes@[k]).name.node@;
            &&& class_table.spec_get(n) is Some
            &&& class_table.spec_get(super::context::neg_key(n)) is Some
            &&& class_members.spec_get(n) is Some
        } by {
            let n = p.classes@[k].name.node@;
            assert(class_key_before(p.classes@, i as int, n));
            assert(class_key_before(p.classes@, i as int, super::context::neg_key(n)));
        }
    }
    Ok((class_table, class_members))
}

/// The `i`-th class resolves against a table holding exactly the keys of
/// the classes before it exactly when its references are among them.
proof fn lemma_class_resolves_iff(classes: Seq<CharClassDef>, i: int, t: FstTable)
    requires
        0 <= i < classes.len(),
        classes_refs_known_upto(classes, i),
        forall|n: Seq<char>| #[trigger] t.spec_get(n) is Some <==> class_key_before(classes, i, n),
    ensures
        class_resolves(classes[i], t) <==> classes_refs_known_upto(classes, i + 1),
{
    let c = classes[i];
    if let CharClassBody::Union(refs) = c.body {
        if class_resolves(c, t) {
            assert forall|r: int| 0 <= r < refs@.len() implies class_key_before(classes, i, (#[trigger] refs@[r]).node@) by {
                assert(t.spec_get(ident_names(refs@)[r]) is Some);
            }
            assert(class_refs_before(classes, i));
        }
        if classes_refs_known_upto(classes, i + 1) {
            assert(class_refs_before(classes, i));
            assert forall|r: int| 0 <= r < ident_names(refs@).len() implies #[trigger] t.spec_get(ident_names(refs@)[r]) is Some by {
                assert(class_key_before(classes, i, refs@[r].node@));
            }
        }
    } else {
        assert(class_refs_before(classes, i));
    }
    if class_refs_before(classes, i) {
        assert forall|k: int| 0 <= k < i + 1 implies #[trigger] class_refs_before(classes, k) by {
        }
    }
}

/// Adding the `i`-th class and its complement to a table holding the keys
/// of the classes before it gives the keys of the first `i + 1`.
proof fn lemma_keys_step(classes: Seq<CharClassDef>, i: int, t0: FstTable, t1: FstTable, t2: FstTable, ng: Seq<char>)
    requires
        0 <= i < classes.len(),
        ng == super::context::neg_key(classes[i].name.node@),
        forall|n: Seq<char>| #[trigger] t0.spec_get(n) is Some <==> class_key_before(classes, i, n),
        t1.spec_get(classes[i].name.node@) is Some,
        forall|n: Seq<char>| n != classes[i].name.node@ ==> #[trigger] t1.spec_get(n) == t0.spec_get(n),
        t2.spec_get(ng) is Some,
        forall|n: Seq<char>| n != ng ==> #[trigger] t2.spec_get(n) == t1.spec_get(n),
    ensures
        forall|n: Seq<char>| #[trigger] t2.spec_get(n) is Some <==> class_key_before(classes, i + 1, n),
{
    let nm = classes[i].name.node@;
    assert forall|n: Seq<char>| #[trigger] t2.spec_get(n) is Some <==> class_key_before(classes, i + 1, n) by {
        if n != ng && n != nm {
            assert(t2.spec_get(n) == t0.spec_get(n));
        }
        if class_key_before(classes, i, n) {
            let j = choose|j: int|
                0 <= j < i && (n == (#[trigger] classes[j]).name.node@ || n == super::context::neg_key(classes[j].name.node@));
            assert(0 <= j < i + 1);
        }
        if class_key_before(classes, i + 1, n) {
            let j = choose|j: int|
                0 <= j < i + 1 && (n == (#[trigger] classes[j]).name.node@ || n == super::context::neg_key(classes[j].name.node@));
            if j < i {
                assert(class_key_before(classes, i, n));
            }
        }
    }
}

/// A class that resolves against a table resolves against any table
/// holding at least its keys.
proof fn lemma_resolves_grows(c: CharClassDef, t0: FstTable, t1: FstTable)
    requires
        class_resolves(c, t0),
        forall|n: Seq<char>| #[trigger] t0.spec_get(n) is Some ==> t1.spec_get(n) is Some,
    ensures
        class_resolves(c, t1),
{
    if let CharClassBody::Union(refs) = c.body {
        assert forall|r: int| 0 <= r < ident_names(refs@).len() implies #[trigger] t1.spec_get(ident_names(refs@)[r]) is Some by {
            assert(t0.spec_get(ident_names(refs@)[r]) is Some);
        }
    }
}

/// Knowing the references of a longer prefix means knowing them of a
/// shorter one.
proof fn lemma_refs_known_prefix(classes: Seq<CharClassDef>, k: int, n: int)
    requires
        0 <= k <= n <= classes.len(),
        classes_refs_known_upto(classes, n),
    ensures
        classes_refs_known_upto(classes, k),
{
}

/// The map table of a phonrule: each map's one-step transducer under its
/// name.
fn build_map_table(p: &PhonRule, alpha: &mut PhonruleAlphabet) -> (t: FstTable)
    requires
        old(alpha).wf(),
    ensures
        alphabet_extends(*old(alpha), *final(alpha)),
        t.wf(),
        map_table_of(t, *p),
{
    proof {
        lemma_extends_refl(*alpha);
    }
    let ghost a0 = *alpha;
    let mut map_table = FstTable::new();
    let mut i: usize = 0;
    while i < p.maps.len()
        invariant
            i <= p.maps@.len(),
            a0.wf(),
            a0 == *old(alpha),
            alphabet_extends(a0, *alpha),
            map_table.wf(),
            forall|n: Seq<char>| #[trigger] map_table.spec_get(n) is Some <==> exists|k: int|
                0 <= k < i && (#[trigger] p.maps@[k]).name.node@ == n,
            forall|n: Seq<char>| #[trigger] map_table.spec_get(n) is Some ==> exists|k: int, a: PhonruleAlphabet, pairs: Seq<(Label, Label)>, texts: Seq<Seq<char>>|
                #![trigger is_map_machine(map_table.spec_get(n)->0, a, p.maps@[k], pairs, texts)]
                last_named_before(p.maps@, i as int, k, n) && is_map_machine(map_table.spec_get(n)->0, a, p.maps@[k], pairs, texts),
        decreases p.maps@.len() - i,
    {
        let ghost a1 = *alpha;
        let f = compile_map(&p.maps[i], alpha);
        proof {
            lemma_extends_trans(a0, a1, *alpha);
        }
        let ghost t0 = map_table;
        map_table.insert(p.maps[i].name.node.clone(), f);
        proof {
            assert forall|n: Seq<char>| #[trigger] map_table.spec_get(n) is Some <==> exists|k: int|
                0 <= k < i + 1 && (#[trigger] p.maps@[k]).name.node@ == n by {
                if n == p.maps@[i as int].name.node@ {
                } else {
                    assert(map_table.spec_get(n) == t0.spec_get(n));
                    if t0.spec_get(n) is Some {
                        let k = choose|k: int| 0 <= k < i && (#[trigger] p.maps@[k]).name.node@ == n;
                        assert(0 <= k < i + 1 && p.maps@[k].name.node@ == n);
                    }
                    if exists|k: int| 0 <= k < i + 1 && (#[trigger] p.maps@[k]).name.node@ == n {
                        let k = choose|k: int| 0 <= k < i + 1 && (#[trigger] p.maps@[k]).name.node@ == n;
                        assert(k < i);
                    }
                }
            }
            assert forall|n: Seq<char>| #[trigger] map_table.spec_get(n) is Some implies exists|k: int, a: PhonruleAlphabet, pairs: Seq<(Label, Label)>, texts: Seq<Seq<char>>|
                #![trigger is_map_machine(map_table.spec_get(n)->0, a, p.maps@[k], pairs, texts)]
                last_named_before(p.maps@, i + 1, k, n) && is_map_machine(map_table.spec_get(n)->0, a, p.maps@[k], pairs, texts) by {
                if n == p.maps@[i as int].name.node@ {
                    let (pairs, texts) = choose|pairs: Seq<(Label, Label)>, texts: Seq<Seq<char>>| #[trigger] is_map_machine(f, *alpha, p.maps@[i as int], pairs, texts);
                    assert(map_table.spec_get(n)->0 == f);
                    assert(is_map_machine(map_table.spec_get(n)->0, *alpha, p.maps@[i as int], pairs, texts));
                    assert(last_named_before(p.maps@, i + 1, i as int, n));
                } else {
                    assert(map_table.spec_get(n) == t0.spec_get(n));
                    let (k, a, pairs, texts) = choose|k: int, a: PhonruleAlphabet, pairs: Seq<(Label, Label)>, texts: Seq<Seq<char>>|
                        #![trigger is_map_machine(t0.spec_get(n)->0, a, p.maps@[k], pairs, texts)]
                        last_named_before(p.maps@, i as int, k, n) && is_map_machine(t0.spec_get(n)->0, a, p.maps@[k], pairs, texts);
                    assert(is_map_machine(map_table.spec_get(n)->0, a, p.maps@[k], pairs, texts));
                    assert(last_named_before(p.maps@, i + 1, k, n));
                }
            }
        }
        i = i + 1;
    }
    proof {
        assert forall|n: Seq<char>| #[trigger] map_table.spec_get(n) is Some implies exists|k: int, a: PhonruleAlphabet, pairs: Seq<(Label, Label)>, texts: Seq<Seq<char>>|
            #![trigger is_map_machine(map_table.spec_get(n)->0, a, p.maps@[k], pairs, texts)]
            last_map_named(p.maps@, k, n) && is_map_machine(map_table.spec_get(n)->0, a, p.maps@[k], pairs, texts) by {
            let (k, a, pairs, texts) = choose|k: int, a: PhonruleAlphabet, pairs: Seq<(Label, Label)>, texts: Seq<Seq<char>>|
                #![trigger is_map_machine(map_table.spec_get(n)->0, a, p.maps@[k], pairs, texts)]
                last_named_before(p.maps@, i as int, k, n) && is_map_machine(map_table.spec_get(n)->0, a, p.maps@[k], pairs, texts);
            assert(last_map_named(p.maps@, k, n));
        }
    }
    map_table
}

/// A sequence of distinct integers in `[0, n)` has at most `n` members.
pub(crate) proof fn lemma_distinct_bounded(s: Seq<int>, n: int)
    requires
        0 <= n,
        s.no_duplicates(),
        forall|k: int| 0 <= k < s.len() ==> 0 <= #[trigger] s[k] < n,
    ensures
        s.len() <= n,
{
    s.unique_seq_to_set();
    vstd::set_lib::lemma_int_range(0, n);
    assert(s.to_set().subset_of(vstd::set_lib::set_int_range(0, n))) by {
        assert forall|x: int| s.to_set().contains(x) implies vstd::set_lib::set_int_range(0, n).contains(x) by {
            let k = choose|k: int| 0 <= k < s.len() && s[k] == x;
            assert(0 <= s[k] < n);
        }
    }
    vstd::set_lib::lemma_len_subset(s.to_set(), vstd::set_lib::set_int_range(0, n));
}

/// `x:z` is what `steps` map one after another.
pub open spec fn chain_of(steps: Seq<Fst>, x: Seq<Label>, z: Seq<Label>) -> bool
    decreases steps.len(),
{
    if steps.len() <= 1 {
        steps.len() == 1 && accepts(steps[0], x, z)
    } else {
        exists|y: Seq<Label>| chain_of(steps.drop_last(), x, y) && #[trigger] accepts(steps.last(), y, z)
    }
}

/// `step` is a body item's machine: a rewrite statement's
/// ([`rewrite_machine`]), or for `apply Q` a compiled machine of the
/// phonrule the resolver holds under `Q` ([`rule_machine`]); `depth`
/// bounds how deeply `apply`s nest.
pub open spec fn body_step(p: PhonRule, item: PhonBodyItem, step: Fst, bracketed: bool, resolver: PhonRuleTable, depth: nat) -> bool
    decreases depth, 0int,
{
    match item {
        PhonBodyItem::Rewrite(rule) => exists|a: PhonruleAlphabet, ct: FstTable, cm: ClassMembers, mt: FstTable|
            #[trigger] rewrite_machine(step, rule, a, ct, cm, mt, bracketed) && class_table_of(ct, p) && members_table_of(cm, p)
                && map_table_of(mt, p),
        PhonBodyItem::Apply(app) => depth > 0 && resolver.spec_get(app.rule.node@) is Some && rule_machine(
            step,
            resolver.spec_get(app.rule.node@)->0,
            bracketed,
            resolver,
            (depth - 1) as nat,
        ),
    }
}

/// `f` maps what `steps` map one after another.
pub open spec fn runs_steps(f: Fst, steps: Seq<Fst>) -> bool {
    forall|x: Seq<Label>, z: Seq<Label>| #[trigger] accepts(f, x, z) <==> chain_of(steps, x, z)
}

/// `f` is a compiled phonrule: for an empty body the identity on Σ (of
/// some alphabet) and the stream markers; else the composition, in body
/// order, of one machine per item as [`body_step`] describes.
pub open spec fn rule_machine(f: Fst, rule: PhonRule, bracketed: bool, resolver: PhonRuleTable, depth: nat) -> bool
    decreases depth, 1int,
{
    if rule.body@.len() == 0 {
        exists|a: PhonruleAlphabet| #![trigger a.sigma_seq()] is_loop_machine(f, identity_pairs(a.sigma_seq()) + marker_pairs())
    } else {
        exists|steps: Seq<Fst>|
            #![trigger runs_steps(f, steps)]
            {
                &&& runs_steps(f, steps)
                &&& steps.len() == rule.body@.len()
                &&& forall|i: int|
                    0 <= i < rule.body@.len() ==> body_step(rule, rule.body@[i], #[trigger] steps[i], bracketed, resolver, depth)
            }
    }
}

/// Some `apply` of `rule`, or of a phonrule reached through its `apply`s
/// (at most `depth` deep), names `name`.
pub open spec fn applies_name(rule: PhonRule, resolver: PhonRuleTable, name: Seq<char>, depth: nat) -> bool
    decreases depth,
{
    exists|i: int|
        #![trigger rule.body@[i]]
        0 <= i < rule.body@.len() && (rule.body@[i] matches PhonBodyItem::Apply(app) && (app.rule.node@ == name || (
        depth > 0 && resolver.spec_get(app.rule.node@) is Some && applies_name(
            resolver.spec_get(app.rule.node@)->0,
            resolver,
            name,
            (depth - 1) as nat,
        ))))
}

/// `path` is the chain of names an `apply` cycle reported from `p` runs
/// through: `stack`, `p`'s name, then along some `apply` of `p` either the
/// applied phonrule's name when it is already on that chain, or the
/// chain continued from the applied phonrule (at most `depth` deep).
pub open spec fn cycle_path_from(p: PhonRule, resolver: PhonRuleTable, stack: Seq<Seq<char>>, path: Seq<Seq<char>>, depth: nat) -> bool
    decreases depth,
{
    exists|i: int|
        #![trigger p.body@[i]]
        0 <= i < p.body@.len() && p.body@[i] is Apply && resolver.spec_get(p.body@[i]->Apply_0.rule.node@) is Some && {
            let t = resolver.spec_get(p.body@[i]->Apply_0.rule.node@)->0;
            let st = stack.push(p.name.node@);
            if st.contains(t.name.node@) {
                path == st.push(t.name.node@)
            } else {
                depth > 0 && cycle_path_from(t, resolver, st, path, (depth - 1) as nat)
            }
        }
}

/// A cycle: the last name of the path occurs earlier in it.
pub open spec fn is_cycle_path(path: Seq<Seq<char>>) -> bool {
    &&& path.len() >= 2
    &&& exists|k: int| 0 <= k < path.len() - 1 && #[trigger] path[k] == path[path.len() - 1]
}

fn compile_phonrule_inner(
    phonrule: &PhonRule,
    resolver: &PhonRuleTable,
    alpha: &mut PhonruleAlphabet,
    stack: &mut Vec<String>,
    opts: RewriteEngineOptions,
    Ghost(visiting): Ghost<Seq<int>>,
) -> (r: Result<Fst, RuleSeqCompileError>)
    requires
        old(alpha).wf(),
        resolver.wf(),
        phonrule_bounds_ok(*phonrule),
        visiting.no_duplicates(),
        forall|k: int| 0 <= k < visiting.len() ==> 0 <= #[trigger] visiting[k] < resolver.entries@.len(),
        forall|k: int|
            0 <= k < visiting.len() ==> name_views(old(stack)@).push(phonrule.name.node@).contains(
                (#[trigger] resolver.entries@[visiting[k]]).1.name.node@,
            ),
    ensures
        alphabet_extends(*old(alpha), *final(alpha)),
        r matches Ok(f) ==> f.wf() && final(stack)@ == old(stack)@,
        r matches Err(RuleSeqCompileError::UnknownPhonrule { name }) ==> resolver.spec_get(name@) is None
            && applies_name(*phonrule, *resolver, name@, (resolver.entries@.len() - visiting.len()) as nat),
        r matches Err(RuleSeqCompileError::ApplyCycle { path }) ==> is_cycle_path(name_views(path@))
            && name_views(old(stack)@).push(phonrule.name.node@).is_prefix_of(name_views(path@)) && cycle_path_from(
            *phonrule,
            *resolver,
            name_views(old(stack)@),
            name_views(path@),
            (resolver.entries@.len() - visiting.len()) as nat,
        ),
        (phonrule.body@.len() == 0 && phonrule.classes@.len() == 0) ==> (r matches Ok(f) && is_loop_machine(
            f,
            identity_pairs(final(alpha).sigma_seq()) + marker_pairs(),
        )),
        phonrule.body@.len() == 0 ==> (r matches Ok(f) ==> is_loop_machine(
            f,
            identity_pairs(final(alpha).sigma_seq()) + marker_pairs(),
        )) && (r matches Err(e) ==> e is Class) && (r is Ok <==> classes_refs_known(phonrule.classes@)),
        !classes_refs_known(phonrule.classes@) ==> (r is Err && r->Err_0 is Class),
        r matches Ok(f) ==> rule_machine(
            f,
            *phonrule,
            opts.force_strategy_b,
            *resolver,
            (resolver.entries@.len() - visiting.len()) as nat,
        ),
        phonrule_ok(
            *phonrule,
            *resolver,
            name_views(old(stack)@),
            opts.force_strategy_b,
            (resolver.entries@.len() - visiting.len()) as nat,
        ) ==> r is Ok,
    decreases resolver.entries@.len() - visiting.len(),
{
    proof {
        lemma_extends_refl(*alpha);
        lemma_distinct_bounded(visiting, resolver.entries@.len() as int);
    }
    let ghost a0 = *alpha;
    let ghost s0 = name_views(stack@);
    stack.push(str_to_owned(phonrule.name.node.as_str()));
    let ghost s1 = name_views(stack@);
    let ghost st1 = stack@;
    proof {
        assert(s1 =~= s0.push(phonrule.name.node@));
        assert(st1.drop_last() =~= old(stack)@);
    }
    pre_intern_phonrule_literals(phonrule, alpha);
    let ghost a1 = *alpha;
    let tables = build_class_tables(phonrule, alpha);
    let ghost a2 = *alpha;
    proof {
        lemma_extends_trans(a0, a1, a2);
    }
    let (class_table, class_members) = match tables {
        Ok(t) => t,
        Err(e) => {
            return Err(e);
        },
    };
    let map_table = build_map_table(phonrule, alpha);
    proof {
        lemma_extends_trans(a0, a2, *alpha);
    }
    let mut acc: Option<Fst> = None;
    let ghost mut steps: Seq<Fst> = seq![];
    let ghost depth: nat = (resolver.entries@.len() - visiting.len()) as nat;
    let mut i: usize = 0;
    while i < phonrule.body.len()
        invariant
            i <= phonrule.body@.len(),
            a0.wf(),
            a0 == *old(alpha),
            alphabet_extends(a0, *alpha),
            resolver.wf(),
            phonrule_bounds_ok(*phonrule),
            class_table.wf(),
            map_table.wf(),
            name_views(stack@) == s1,
            stack@ == st1,
            st1.len() > 0,
            st1.drop_last() == old(stack)@,
            s1 == s0.push(phonrule.name.node@),
            s0 == name_views(old(stack)@),
            acc matches Some(f) ==> f.wf(),
            i > 0 ==> acc is Some,
            i == 0 ==> acc is None,
            steps.len() == i,
            forall|j: int| 0 <= j < i ==> body_step(*phonrule, phonrule.body@[j], #[trigger] steps[j], opts.force_strategy_b, *resolver, depth),
            depth == resolver.entries@.len() - visiting.len(),
            classes_refs_known(phonrule.classes@),
            class_table_of(class_table, *phonrule),
            members_table_of(class_members, *phonrule),
            map_table_of(map_table, *phonrule),
            acc matches Some(f) ==> forall|x: Seq<Label>, z: Seq<Label>| #[trigger] accepts(f, x, z) <==> chain_of(steps, x, z),
            visiting.no_duplicates(),
            visiting.len() < resolver.entries@.len() + 1,
            forall|k: int| 0 <= k < visiting.len() ==> 0 <= #[trigger] visiting[k] < resolver.entries@.len(),
            forall|k: int| 0 <= k < visiting.len() ==> s1.contains((#[trigger] resolver.entries@[visiting[k]]).1.name.node@),
        decreases phonrule.body@.len() - i,
    {
        let ghost a3 = *alpha;
        let step = match &phonrule.body[i] {
            PhonBodyItem::Rewrite(rule) => {
                proof {
                    assert(phonrule.body@[i as int] matches PhonBodyItem::Rewrite(r) ==> rule_bounds_ok(r));
                }
                let res = compile_rewrite_rule_dispatch(rule, alpha, &class_table, &class_members, &map_table, opts);
                proof {
                    lemma_extends_trans(a0, a3, *alpha);
                }
                match res {
                    Ok(f) => {
                        proof {
                            assert(rewrite_machine(f, *rule, *alpha, class_table, class_members, map_table, opts.force_strategy_b));
                            assert(body_step(*phonrule, phonrule.body@[i as int], f, opts.force_strategy_b, *resolver, depth));
                        }
                        f
                    },
                    Err(e) => {
                        proof {
                            if phonrule_ok(*phonrule, *resolver, s0, opts.force_strategy_b, depth) {
                                assert(phonrule.body@[i as int] == PhonBodyItem::Rewrite(*rule));
                                assert(rewrite_item_ok(*phonrule, *rule, opts.force_strategy_b));
                                assert(rewrite_ok(*rule, class_table, class_members, map_table, opts.force_strategy_b));
                            }
                        }
                        return Err(RuleSeqCompileError::Rewrite(e));
                    },
                }
            },
            PhonBodyItem::Apply(apply) => {
                let k = match resolver.find(apply.rule.node.as_str()) {
                    Some(k) => k,
                    None => {
                        proof {
                            assert(phonrule.body@[i as int] == PhonBodyItem::Apply(*apply));
                            assert(applies_name(*phonrule, *resolver, apply.rule.node@, depth));
                        }
                        return Err(RuleSeqCompileError::UnknownPhonrule { name: str_to_owned(apply.rule.node.as_str()) });
                    },
                };
                let target = &resolver.entries[k].1;
                if on_stack(stack, target.name.node.as_str()) {
                    let mut path = copy_names(stack);
                    path.push(str_to_owned(target.name.node.as_str()));
                    proof {
                        let pv = name_views(path@);
                        assert(pv =~= s1.push(target.name.node@));
                        let j = choose|j: int| 0 <= j < s1.len() && s1[j] == target.name.node@;
                        assert(pv[j] == pv[pv.len() - 1]);
                        assert(s1 =~= pv.subrange(0, s1.len() as int));
                        assert(phonrule.body@[i as int] == PhonBodyItem::Apply(*apply));
                        assert(resolver.spec_get(apply.rule.node@) == Some(*target));
                        assert(s1.contains(target.name.node@));
                        assert(cycle_path_from(*phonrule, *resolver, s0, pv, depth));
                    }
                    return Err(RuleSeqCompileError::ApplyCycle { path });
                }
                proof {
                    assert(!visiting.contains(k as int)) by {
                        if visiting.contains(k as int) {
                            let j = choose|j: int| 0 <= j < visiting.len() && visiting[j] == k;
                            assert(s1.contains(resolver.entries@[visiting[j]].1.name.node@));
                        }
                    }
                    assert(phonrule_bounds_ok(resolver.entries@[k as int].1));
                    lemma_distinct_bounded(visiting.push(k as int), resolver.entries@.len() as int);
                }
                let ghost nv = visiting.push(k as int);
                proof {
                    assert forall|j: int| 0 <= j < nv.len() implies name_views(stack@).push(target.name.node@).contains(
                        (#[trigger] resolver.entries@[nv[j]]).1.name.node@,
                    ) by {
                        if j < visiting.len() {
                            assert(nv[j] == visiting[j]);
                            let t = choose|t: int| 0 <= t < s1.len() && s1[t] == resolver.entries@[visiting[j]].1.name.node@;
                            assert(s1.push(target.name.node@)[t] == s1[t]);
                        } else {
                            assert(s1.push(target.name.node@)[s1.len() as int] == target.name.node@);
                        }
                    }
                }
                let ghost st = stack@;
                let res = compile_phonrule_inner(target, resolver, alpha, stack, opts, Ghost(nv));
                proof {
                    lemma_extends_trans(a0, a3, *alpha);
                }
                match res {
                    Ok(f) => {
                        proof {
                            assert(resolver.spec_get(apply.rule.node@) == Some(*target));
                            assert(phonrule.body@[i as int] == PhonBodyItem::Apply(*apply));
                            assert(body_step(*phonrule, phonrule.body@[i as int], f, opts.force_strategy_b, *resolver, depth));
                        }
                        f
                    },
                    Err(e) => {
                        proof {
                            if e is ApplyCycle {
                                assert(resolver.spec_get(apply.rule.node@) == Some(*target));
                                assert(phonrule.body@[i as int] == PhonBodyItem::Apply(*apply));
                                assert(!s1.contains(target.name.node@));
                                assert(cycle_path_from(*phonrule, *resolver, s0, name_views(e->path@), depth));
                            }
                            if e is UnknownPhonrule {
                                assert(resolver.spec_get(apply.rule.node@) == Some(*target));
                                assert(phonrule.body@[i as int] == PhonBodyItem::Apply(*apply));
                                assert(applies_name(*phonrule, *resolver, e->name@, depth));
                            }
                            if e is ApplyCycle {
                                let pv = name_views(e->path@);
                                let q = s1.push(target.name.node@);
                                assert(q.is_prefix_of(pv));
                                assert(s1 =~= q.subrange(0, s1.len() as int));
                                assert(pv.subrange(0, s1.len() as int) =~= q.subrange(0, s1.len() as int));
                            }
                        }
                        return Err(e);
                    },
                }
            },
        };
        let ghost acc0 = acc;
        let ghost st0 = steps;
        acc = Some(
            match acc {
                None => step,
                Some(prev) => compose_sorted(&prev, &step),
            },
        );
        proof {
            steps = steps.push(step);
            assert(steps.drop_last() =~= st0);
            assert(steps.last() == step);
            assert forall|j: int| 0 <= j < i + 1 implies body_step(*phonrule, phonrule.body@[j], #[trigger] steps[j], opts.force_strategy_b, *resolver, depth) by {
                if j < i {
                    assert(steps[j] == st0[j]);
                }
            }
            let nf = acc->0;
            assert forall|x: Seq<Label>, z: Seq<Label>| #[trigger] accepts(nf, x, z) <==> chain_of(steps, x, z) by {
                if i == 0 {
                    assert(steps.len() == 1);
                } else {
                    let prev = acc0->0;
                    if accepts(nf, x, z) {
                        let y = choose|y: Seq<Label>| accepts(prev, x, y) && accepts(step, y, z);
                        assert(chain_of(st0, x, y));
                    }
                    if chain_of(steps, x, z) {
                        let y = choose|y: Seq<Label>| chain_of(steps.drop_last(), x, y) && #[trigger] accepts(steps.last(), y, z);
                        assert(accepts(prev, x, y));
                    }
                }
            }
        }
        i = i + 1;
    }
    stack.pop();
    proof {
        if phonrule.body@.len() > 0 {
            let f = acc->0;
            assert(runs_steps(f, steps));
            assert(rule_machine(f, *phonrule, opts.force_strategy_b, *resolver, depth));
        }
    }
    match acc {
        Some(f) => Ok(f),
        None => {
            let f = build_identity_over_sigma(alpha);
            proof {
                let a = *alpha;
                assert(is_loop_machine(f, identity_pairs(a.sigma_seq()) + marker_pairs()));
                assert(rule_machine(f, *phonrule, opts.force_strategy_b, *resolver, depth));
            }
            Ok(f)
        },
    }
}

/// Compile a phonrule into one transducer with the default construction
/// choice (directed where it applies).
///
/// The body's steps are composed in order: a rewrite statement's
/// transducer, or for `apply Q` the compiled phonrule `Q` that `resolver`
/// holds. An empty body gives the identity on Σ and the stream markers.
/// Fails with `UnknownPhonrule` for an `apply` the resolver cannot
/// resolve, with `ApplyCycle` when the chain returns to a phonrule being
/// compiled, and with the class or rewrite error of the first item that
/// does not compile.
pub fn compile_phonrule(
    phonrule: &PhonRule,
    resolver: &PhonRuleTable,
    alpha: &mut PhonruleAlphabet,
) -> (r: Result<Fst, RuleSeqCompileError>)
    requires
        old(alpha).wf(),
        resolver.wf(),
        phonrule_bounds_ok(*phonrule),
    ensures
        alphabet_extends(*old(alpha), *final(alpha)),
        r matches Ok(f) ==> f.wf(),
        r matches Err(RuleSeqCompileError::UnknownPhonrule { name }) ==> resolver.spec_get(name@) is None
            && applies_name(*phonrule, *resolver, name@, resolver.entries@.len() as nat),
        r matches Err(RuleSeqCompileError::ApplyCycle { path }) ==> is_cycle_path(name_views(path@))
            && name_views(path@)[0] == phonrule.name.node@ && cycle_path_from(
            *phonrule,
            *resolver,
            Seq::empty(),
            name_views(path@),
            resolver.entries@.len() as nat,
        ),
        (phonrule.body@.len() == 0 && phonrule.classes@.len() == 0) ==> (r matches Ok(f) && is_loop_machine(
            f,
            identity_pairs(final(alpha).sigma_seq()) + marker_pairs(),
        )),
        phonrule.body@.len() == 0 ==> (r matches Ok(f) ==> is_loop_machine(
            f,
            identity_pairs(final(alpha).sigma_seq()) + marker_pairs(),
        )) && (r matches Err(e) ==> e is Class) && (r is Ok <==> classes_refs_known(phonrule.classes@)),
        !classes_refs_known(phonrule.classes@) ==> (r is Err && r->Err_0 is Class),
        r matches Ok(f) ==> rule_machine(f, *phonrule, false, *resolver, resolver.entries@.len() as nat),
        phonrule_ok(*phonrule, *resolver, Seq::empty(), false, resolver.entries@.len() as nat) ==> r is Ok,
{
    compile_phonrule_with_options(phonrule, resolver, alpha, RewriteEngineOptions { force_strategy_b: false })
}

/// [`compile_phonrule`] with an explicit construction choice.
pub fn compile_phonrule_with_options(
    phonrule: &PhonRule,
    resolver: &PhonRuleTable,
    alpha: &mut PhonruleAlphabet,
    opts: RewriteEngineOptions,
) -> (r: Result<Fst, RuleSeqCompileError>)
    requires
        old(alpha).wf(),
        resolver.wf(),
        phonrule_bounds_ok(*phonrule),
    ensures
        alphabet_extends(*old(alpha), *final(alpha)),
        r matches Ok(f) ==> f.wf(),
        r matches Err(RuleSeqCompileError::UnknownPhonrule { name }) ==> resolver.spec_get(name@) is None
            && applies_name(*phonrule, *resolver, name@, resolver.entries@.len() as nat),
        r matches Err(RuleSeqCompileError::ApplyCycle { path }) ==> is_cycle_path(name_views(path@))
            && name_views(path@)[0] == phonrule.name.node@ && cycle_path_from(
            *phonrule,
            *resolver,
            Seq::empty(),
            name_views(path@),
            resolver.entries@.len() as nat,
        ),
        (phonrule.body@.len() == 0 && phonrule.classes@.len() == 0) ==> (r matches Ok(f) && is_loop_machine(
            f,
            identity_pairs(final(alpha).sigma_seq()) + marker_pairs(),
        )),
        phonrule.body@.len() == 0 ==> (r matches Ok(f) ==> is_loop_machine(
            f,
            identity_pairs(final(alpha).sigma_seq()) + marker_pairs(),
        )) && (r matches Err(e) ==> e is Class) && (r is Ok <==> classes_refs_known(phonrule.classes@)),
        !classes_refs_known(phonrule.classes@) ==> (r is Err && r->Err_0 is Class),
        r matches Ok(f) ==> rule_machine(f, *phonrule, opts.force_strategy_b, *resolver, resolver.entries@.len() as nat),
        phonrule_ok(*phonrule, *resolver, Seq::empty(), opts.force_strategy_b, resolver.entries@.len() as nat) ==> r is Ok,
{
    let mut stack: Vec<String> = Vec::new();
    let r = compile_phonrule_inner(phonrule, resolver, alpha, &mut stack, opts, Ghost(Seq::empty()));
    proof {
        assert(name_views(Seq::<String>::empty()) =~= Seq::<Seq<char>>::empty());
        if r is Err && r->Err_0 is ApplyCycle {
            let pv = name_views(r->Err_0->path@);
            assert(name_views(Seq::<String>::empty()).push(phonrule.name.node@)[0] == phonrule.name.node@);
        }
    }
    r
}

} // verus!
