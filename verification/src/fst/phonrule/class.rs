//! Character classes as one-step identity acceptors.
//!
//! A class accepts exactly its members, one symbol each: the machine
//! `0 -> 1` with an `l:l` arc per member `l`. A `List` class interns its
//! literals; a `Union` class takes the members of already-compiled classes
//! from the class table.

use vstd::prelude::*;

use crate::ast::{CharClassBody, CharClassDef};
use super::super::alphabet::PhonruleAlphabet;
use super::super::backend::{lemma_first_index_push, FstError, FstResult, Label};
use super::super::machine::{
    accepts, identity_pairs, is_one_step, is_run, is_step_machine, lemma_one_step_runs, one_step, paths, paths_within,
    run_from_start, runs_fewer_than, step_machine, Fst,
};
use super::super::table::FstTable;
use crate::text::string_push_str;

verus! {

/// Error compiling a class.
#[derive(Debug, Clone, PartialEq, Eq)]
pub enum ClassCompileError {
    /// `referrer` names `target` in a union, and no compiled class of that
    /// name is in the table.
    UnknownClass { referrer: String, target: String },
}

impl ClassCompileError {
    /// The message shown for this error.
    pub open spec fn msg(&self) -> Seq<char> {
        match self {
            ClassCompileError::UnknownClass { referrer, target } => "class '"@ + referrer@ + "' references undefined or not-yet-compiled class '"@ + target@ + "'"@,
        }
    }

    /// The message shown for this error.
    pub fn message(&self) -> (s: String)
        ensures
            s@ == self.msg(),
    {
        match self {
            ClassCompileError::UnknownClass { referrer, target } => {
                let mut out = String::new();
                crate::text::string_push_str(&mut out, "class '");
                crate::text::string_push_str(&mut out, referrer.as_str());
                crate::text::string_push_str(&mut out, "' references undefined or not-yet-compiled class '");
                crate::text::string_push_str(&mut out, target.as_str());
                crate::text::string_push_str(&mut out, "'");
                out
            },
        }
    }
}


/// `alpha2` extends `alpha1`: the same morphemes, and every name known to
/// `alpha1` keeps its label.
pub open spec fn alphabet_extends(alpha1: PhonruleAlphabet, alpha2: PhonruleAlphabet) -> bool {
    &&& alpha2.wf()
    &&& alpha2.morpheme_names() == alpha1.morpheme_names()
    &&& forall|n: Seq<char>| #[trigger] alpha1.spec_lookup(n) is Some ==> alpha2.spec_lookup(n) == alpha1.spec_lookup(n)
    &&& forall|i: int| 0 <= i < alpha1.sigma_seq().len() ==> alpha2.sigma_seq().contains(#[trigger] alpha1.sigma_seq()[i])
}

/// The texts of string literals.
pub open spec fn lit_names(lits: Seq<crate::ast::StringLit>) -> Seq<Seq<char>> {
    lits.map_values(|l: crate::ast::StringLit| l.node@)
}

/// The texts of identifiers.
pub open spec fn ident_names(ids: Seq<crate::ast::Ident>) -> Seq<Seq<char>> {
    ids.map_values(|r: crate::ast::Ident| r.node@)
}

/// `s.push(x)` contains `l` exactly when `s` does or `x` is `l`.
pub proof fn lemma_contains_push<A>(s: Seq<A>, x: A, l: A)
    ensures
        s.push(x).contains(l) == (s.contains(l) || x == l),
{
    let t = s.push(x);
    if s.contains(l) {
        let i = choose|i: int| 0 <= i < s.len() && s[i] == l;
        assert(t[i] == l);
    }
    if x == l {
        assert(t[s.len() as int] == l);
    }
    if t.contains(l) {
        let i = choose|i: int| 0 <= i < t.len() && t[i] == l;
        if i < s.len() {
            assert(s[i] == l);
        }
    }
}

/// Every alphabet extends itself.
pub proof fn lemma_extends_refl(a: PhonruleAlphabet)
    requires
        a.wf(),
    ensures
        alphabet_extends(a, a),
{
    assert forall|i: int| 0 <= i < a.sigma_seq().len() implies a.sigma_seq().contains(#[trigger] a.sigma_seq()[i]) by {}
}

/// The label of a known symbol name.
pub open spec fn lit_label(alpha: PhonruleAlphabet, n: Seq<char>) -> Label {
    alpha.spec_lookup(n)->0 as Label
}

/// Each character of `s`, as a one-character symbol, is known.
pub open spec fn chars_known(alpha: PhonruleAlphabet, s: Seq<char>) -> bool {
    forall|k: int| 0 <= k < s.len() ==> alpha.spec_lookup(seq![#[trigger] s[k]]) is Some
}

/// The labels of the characters of `s`.
pub open spec fn char_labels(alpha: PhonruleAlphabet, s: Seq<char>) -> Seq<Label> {
    s.map_values(|c: char| lit_label(alpha, seq![c]))
}

/// Known characters keep their labels as the alphabet grows.
pub proof fn lemma_char_labels_stable(a1: PhonruleAlphabet, a2: PhonruleAlphabet, s: Seq<char>)
    requires
        chars_known(a1, s),
        alphabet_extends(a1, a2),
    ensures
        chars_known(a2, s),
        char_labels(a2, s) == char_labels(a1, s),
{
    assert forall|k: int| 0 <= k < s.len() implies a2.spec_lookup(seq![#[trigger] s[k]]) == a1.spec_lookup(seq![s[k]]) by {
        assert(a1.spec_lookup(seq![s[k]]) is Some);
    }
    assert(char_labels(a2, s) =~= char_labels(a1, s));
}

/// Some literal of `lits` is known and has label `l`.
pub open spec fn names_lit(alpha: PhonruleAlphabet, lits: Seq<Seq<char>>, l: Label) -> bool {
    exists|i: int| 0 <= i < lits.len() && alpha.spec_lookup(lits[i]) is Some && #[trigger] lit_label(alpha, lits[i]) == l
}

/// `m` is the member list of a `List` class over `lits` in `alpha`: the
/// labels of the literals, each once.
pub open spec fn list_members(alpha: PhonruleAlphabet, lits: Seq<Seq<char>>, m: Seq<Label>) -> bool {
    &&& m.no_duplicates()
    &&& forall|i: int| 0 <= i < lits.len() ==> alpha.spec_lookup(#[trigger] lits[i]) is Some
        && m.contains(lit_label(alpha, lits[i]))
    &&& forall|j: int| 0 <= j < m.len() ==> #[trigger] names_lit(alpha, lits, m[j])
}

/// Every union reference names a class in the table.
pub open spec fn union_refs_known(table: FstTable, refs: Seq<Seq<char>>) -> bool {
    forall|i: int| 0 <= i < refs.len() ==> #[trigger] table.spec_get(refs[i]) is Some
}

/// `f` accepts some input that starts with `l`.
pub open spec fn first_input_of(f: Fst, l: Label) -> bool {
    exists|x: Seq<Label>, y: Seq<Label>| x.len() > 0 && x[0] == l && #[trigger] accepts(f, x, y)
}

/// `m` lists distinct labels, each the first input of some path accepted
/// by a referenced class.
pub open spec fn union_members(table: FstTable, refs: Seq<Seq<char>>, m: Seq<Label>) -> bool {
    &&& m.no_duplicates()
    &&& forall|j: int| 0 <= j < m.len() ==> #[trigger] in_union(table, refs, m[j])
}

/// Some referenced class accepts an input starting with `l`.
pub open spec fn in_union(table: FstTable, refs: Seq<Seq<char>>, l: Label) -> bool {
    exists|i: int| 0 <= i < refs.len() && #[trigger] first_input_of(table.spec_get(refs[i])->0, l)
}

/// The outcome of resolving a class body: the error when a union names an
/// unknown class, else a member list as described above.
pub open spec fn members_ok(
    class: CharClassDef,
    alpha: PhonruleAlphabet,
    table: FstTable,
    m: Seq<Label>,
) -> bool {
    match class.body {
        CharClassBody::List(lits) => list_members(alpha, lit_names(lits@), m),
        CharClassBody::Union(refs) => union_members(table, ident_names(refs@), m) && (refs_enumerable(table, ident_names(refs@))
            ==> forall|l: Label| #[trigger] in_union(table, ident_names(refs@), l) ==> m.contains(l)),
    }
}

/// The accepted inputs of `f` can all be listed: it is a one-step machine
/// (as every class acceptor is), or has fewer runs than path enumeration
/// explores.
pub open spec fn enumerable(f: Fst) -> bool {
    (one_step(f) && f.deg(f.start->0 as int) + 2 < usize::MAX) || runs_fewer_than(f, 1_000_000)
}

/// Each referenced class's acceptor is [`enumerable`].
pub open spec fn refs_enumerable(table: FstTable, refs: Seq<Seq<char>>) -> bool {
    forall|i: int| 0 <= i < refs.len() ==> enumerable(#[trigger] table.spec_get(refs[i])->0)
}

/// A class's members are determined by the class, the alphabet and the
/// table (for a union, once its referenced classes can be enumerated): two
/// member lists that [`compile_class`] or [`compile_class_complement`] may
/// build hold the same labels, so a class and its complement split Σ.
pub proof fn lemma_members_determined(
    class: CharClassDef,
    alpha: PhonruleAlphabet,
    table: FstTable,
    m1: Seq<Label>,
    m2: Seq<Label>,
)
    requires
        members_ok(class, alpha, table, m1),
        members_ok(class, alpha, table, m2),
        class.body matches CharClassBody::Union(refs) ==> refs_enumerable(table, ident_names(refs@)),
    ensures
        forall|l: Label| m1.contains(l) <==> m2.contains(l),
{
    match class.body {
        CharClassBody::List(lits) => {
            let names = lit_names(lits@);
            assert forall|l: Label| m1.contains(l) implies m2.contains(l) by {
                let j = choose|j: int| 0 <= j < m1.len() && m1[j] == l;
                assert(names_lit(alpha, names, m1[j]));
                let i = choose|i: int| 0 <= i < names.len() && alpha.spec_lookup(names[i]) is Some && #[trigger] lit_label(alpha, names[i]) == l;
            }
            assert forall|l: Label| m2.contains(l) implies m1.contains(l) by {
                let j = choose|j: int| 0 <= j < m2.len() && m2[j] == l;
                assert(names_lit(alpha, names, m2[j]));
                let i = choose|i: int| 0 <= i < names.len() && alpha.spec_lookup(names[i]) is Some && #[trigger] lit_label(alpha, names[i]) == l;
            }
        },
        CharClassBody::Union(refs) => {
            let names = ident_names(refs@);
            assert forall|l: Label| m1.contains(l) <==> m2.contains(l) by {
                if m1.contains(l) {
                    let j = choose|j: int| 0 <= j < m1.len() && m1[j] == l;
                    assert(in_union(table, names, m1[j]));
                }
                if m2.contains(l) {
                    let j = choose|j: int| 0 <= j < m2.len() && m2[j] == l;
                    assert(in_union(table, names, m2[j]));
                }
            }
        },
    }
}

/// A run from the start of a one-step machine takes no arc or one arc.
proof fn lemma_step_run(f: Fst, pairs: Seq<(Label, Label)>, steps: Seq<int>)
    requires
        is_step_machine(f, pairs),
        run_from_start(f, steps),
    ensures
        steps.len() == 0 || (steps.len() == 1 && 0 <= steps[0] < pairs.len()),
{
    let t = choose|t: int| #[trigger] is_run(f, 0, steps, t);
    if steps.len() > 0 {
        assert(0 <= steps[0] < f.deg(0));
        assert(f.arc(0, steps[0]).nextstate == 1);
        if steps.len() > 1 {
            assert(is_run(f, 1, steps.drop_first(), t));
            assert(steps.drop_first()[0] < f.deg(1));
        }
    }
}

/// A one-step machine has the empty run and one run per arc, so it has
/// fewer than `limit` runs when it has fewer than `limit - 1` arcs.
pub proof fn lemma_step_machine_runs(f: Fst, pairs: Seq<(Label, Label)>, limit: int)
    requires
        is_step_machine(f, pairs),
        pairs.len() + 1 < limit,
    ensures
        runs_fewer_than(f, limit),
{
    assert forall|rs: Seq<Seq<int>>|
        #![trigger rs.len()]
        rs.len() == limit && (forall|i: int, j: int| 0 <= i < j < rs.len() ==> #[trigger] rs[i] != #[trigger] rs[j])
            implies exists|i: int| 0 <= i < rs.len() && !(#[trigger] run_from_start(f, rs[i])) by {
        if forall|i: int| 0 <= i < rs.len() ==> #[trigger] run_from_start(f, rs[i]) {
            let codes = Seq::new(rs.len(), |i: int| if rs[i].len() == 0 { 0 } else { rs[i][0] + 1 });
            assert forall|k: int| 0 <= k < codes.len() implies 0 <= #[trigger] codes[k] < pairs.len() + 1 by {
                assert(run_from_start(f, rs[k]));
                lemma_step_run(f, pairs, rs[k]);
            }
            assert(codes.no_duplicates()) by {
                assert forall|a: int, b: int| 0 <= a < codes.len() && 0 <= b < codes.len() && a != b implies codes[a] != codes[b] by {
                    assert(run_from_start(f, rs[a]));
                    assert(run_from_start(f, rs[b]));
                    lemma_step_run(f, pairs, rs[a]);
                    lemma_step_run(f, pairs, rs[b]);
                    if codes[a] == codes[b] {
                        assert(rs[a] =~= rs[b]);
                        if a < b {
                            assert(rs[a] != rs[b]);
                        } else {
                            assert(rs[b] != rs[a]);
                        }
                    }
                }
            }
            super::rule_seq::lemma_distinct_bounded(codes, pairs.len() + 1int);
        }
    }
}

/// The error for a union class: `target` is the first reference missing
/// from the table.
pub open spec fn first_unknown_ref(class: CharClassDef, table: FstTable, e: ClassCompileError) -> bool {
    match class.body {
        CharClassBody::List(_) => false,
        CharClassBody::Union(refs) => {
            let ClassCompileError::UnknownClass { referrer, target } = e;
            &&& referrer@ == class.name.node@
            &&& exists|i: int|
                0 <= i < refs@.len() && (#[trigger] refs@[i]).node@ == target@
                    && table.spec_get(target@) is None
                    && forall|j: int| 0 <= j < i ==> table.spec_get(refs@[j].node@) is Some
        },
    }
}

/// Whether the class body can be resolved against the table.
pub open spec fn class_resolves(class: CharClassDef, table: FstTable) -> bool {
    match class.body {
        CharClassBody::List(_) => true,
        CharClassBody::Union(refs) => union_refs_known(table, ident_names(refs@)),
    }
}

/// Append `l` unless it is already there.
fn push_unique(m: &mut Vec<Label>, l: Label)
    requires
        old(m)@.no_duplicates(),
    ensures
        final(m)@.no_duplicates(),
        final(m)@.contains(l),
        forall|x: Label| final(m)@.contains(x) <==> (old(m)@.contains(x) || x == l),
        forall|j: int| 0 <= j < old(m)@.len() ==> #[trigger] final(m)@[j] == old(m)@[j],
        final(m)@.len() <= old(m)@.len() + 1,
        old(m)@.contains(l) ==> final(m)@ == old(m)@,
        !old(m)@.contains(l) ==> final(m)@ == old(m)@.push(l),
{
    let mut i: usize = 0;
    while i < m.len()
        invariant
            i <= m@.len(),
            m@ == old(m)@,
            old(m)@.no_duplicates(),
            forall|j: int| 0 <= j < i ==> m@[j] != l,
        decreases m@.len() - i,
    {
        if m[i] == l {
            assert(m@[i as int] == l);
            return;
        }
        i = i + 1;
    }
    let ghost m0 = m@;
    m.push(l);
    proof {
        assert(m@[m0.len() as int] == l);
        assert forall|x: Label| m@.contains(x) <==> (m0.contains(x) || x == l) by {
            if m@.contains(x) {
                let j = choose|j: int| 0 <= j < m@.len() && m@[j] == x;
                if j < m0.len() {
                    assert(m0[j] == x);
                }
            }
            if m0.contains(x) {
                let j = choose|j: int| 0 <= j < m0.len() && m0[j] == x;
                assert(m@[j] == x);
            }
        }
    }
}

/// First input labels of the accepted paths of `f` (bounded enumeration).
fn input_labels_of(f: &Fst) -> (r: Vec<Label>)
    requires
        f.wf(),
    ensures
        r@.no_duplicates(),
        forall|j: int| 0 <= j < r@.len() ==> #[trigger] first_input_of(*f, r@[j]),
        enumerable(*f) ==> forall|l: Label| #[trigger] first_input_of(*f, l) ==> r@.contains(l),
{
    let one = is_one_step(f);
    let d: usize = match f.start {
        Some(s) => f.arcs[s].len(),
        None => 0,
    };
    let ps = if one && d < usize::MAX - 1 {
        proof {
            assert(f.arcs@[f.start->0 as int]@.len() == f.deg(f.start->0 as int));
            lemma_one_step_runs(*f);
        }
        paths_within(f, d + 2, d + 2)
    } else {
        paths(f, 1_000_000)
    };
    let ghost complete = forall|x: Seq<Label>, y: Seq<Label>|
        #[trigger] accepts(*f, x, y) ==> exists|q: int| 0 <= q < ps@.len() && (#[trigger] ps@[q]).input@ == x && ps@[q].output@ == y;
    proof {
        if enumerable(*f) {
            if one_step(*f) && f.deg(f.start->0 as int) + 2 < usize::MAX {
                assert(f.arcs@[f.start->0 as int]@.len() == f.deg(f.start->0 as int));
            }
            assert(complete);
        }
    }
    let mut r: Vec<Label> = Vec::new();
    let mut i: usize = 0;
    while i < ps.len()
        invariant
            i <= ps@.len(),
            forall|q: int| 0 <= q < ps@.len() ==> accepts(*f, (#[trigger] ps@[q]).input@, ps@[q].output@),
            r@.no_duplicates(),
            forall|j: int| 0 <= j < r@.len() ==> #[trigger] first_input_of(*f, r@[j]),
            forall|q: int| 0 <= q < i && (#[trigger] ps@[q]).input@.len() > 0 ==> r@.contains(ps@[q].input@[0]),
        decreases ps@.len() - i,
    {
        let ghost rr = r@;
        if ps[i].input.len() > 0 {
            let l = ps[i].input[0];
            let ghost r0 = r@;
            push_unique(&mut r, l);
            proof {
                let x = ps@[i as int].input@;
                let y = ps@[i as int].output@;
                assert(accepts(*f, x, y));
                assert(x.len() > 0 && x[0] == l);
                assert(first_input_of(*f, l));
                assert forall|j: int| 0 <= j < r@.len() implies #[trigger] first_input_of(*f, r@[j]) by {
                    if j < r0.len() {
                        assert(r@[j] == r0[j]);
                        assert(first_input_of(*f, r0[j]));
                    } else {
                        assert(r@ == r0.push(l));
                        assert(r@[j] == l);
                    }
                }
            }
        }
        proof {
            assert forall|q: int| 0 <= q < i + 1 && (#[trigger] ps@[q]).input@.len() > 0 implies r@.contains(ps@[q].input@[0]) by {
                if q < i {
                    assert(rr.contains(ps@[q].input@[0]));
                }
            }
        }
        i = i + 1;
    }
    proof {
        if enumerable(*f) {
            assert forall|l: Label| #[trigger] first_input_of(*f, l) implies r@.contains(l) by {
                let (x, y) = choose|x: Seq<Label>, y: Seq<Label>| x.len() > 0 && x[0] == l && #[trigger] accepts(*f, x, y);
                let q = choose|q: int| 0 <= q < ps@.len() && (#[trigger] ps@[q]).input@ == x && ps@[q].output@ == y;
                assert(ps@[q].input@.len() > 0);
            }
        }
    }
    r
}

/// The members of a class, interning `List` literals.
fn resolve_members(class: &CharClassDef, alpha: &mut PhonruleAlphabet, class_table: &FstTable) -> (r: Result<Vec<Label>, ClassCompileError>)
    requires
        old(alpha).wf(),
        class_table.wf(),
    ensures
        alphabet_extends(*old(alpha), *final(alpha)),
        class.body is Union ==> *final(alpha) == *old(alpha),
        match r {
            Ok(m) => class_resolves(*class, *class_table) && members_ok(*class, *final(alpha), *class_table, m@),
            Err(e) => !class_resolves(*class, *class_table) && first_unknown_ref(*class, *class_table, e),
        },
{
    let mut members: Vec<Label> = Vec::new();
    match &class.body {
        CharClassBody::List(lits) => {
            let ghost names = lit_names(lits@);
            let ghost a0 = *alpha;
            proof {
                lemma_extends_refl(a0);
            }
            let mut i: usize = 0;
            while i < lits.len()
                invariant
                    i <= lits@.len(),
                    names == lit_names(lits@),
                    names.len() == lits@.len(),
                    class.body == CharClassBody::List(*lits),
                    alphabet_extends(a0, *alpha),
                    members@.no_duplicates(),
                    forall|k: int| 0 <= k < i ==> alpha.spec_lookup(#[trigger] names[k]) is Some
                        && members@.contains(lit_label(*alpha, names[k])),
                    forall|j: int| 0 <= j < members@.len() ==> #[trigger] names_lit(*alpha, names.take(i as int), members@[j]),
                decreases lits@.len() - i,
            {
                let ghost a1 = *alpha;
                let ghost m0 = members@;
                let l = alpha.intern(lits[i].node.as_str());
                proof {
                    assert(names[i as int] == lits@[i as int].node@);
                    lemma_intern_extends(a1, *alpha, names[i as int], l);
                }
                push_unique(&mut members, l);
                proof {
                    lemma_extends_trans(a0, a1, *alpha);
                    assert forall|k: int| 0 <= k < i + 1 implies alpha.spec_lookup(#[trigger] names[k]) is Some
                        && members@.contains(lit_label(*alpha, names[k])) by {
                        if k < i {
                            assert(a1.spec_lookup(names[k]) is Some);
                            assert(lit_label(*alpha, names[k]) == lit_label(a1, names[k]));
                            lemma_contains_push(m0, l, lit_label(a1, names[k]));
                        }
                    }
                    assert forall|j: int| 0 <= j < members@.len() implies #[trigger] names_lit(*alpha, names.take(i + 1), members@[j]) by {
                        let t0 = names.take(i as int);
                        let t1 = names.take(i + 1);
                        if j < m0.len() {
                            assert(members@[j] == m0[j]);
                            assert(names_lit(a1, t0, m0[j]));
                            let k = choose|k: int| 0 <= k < t0.len() && a1.spec_lookup(t0[k]) is Some && #[trigger] lit_label(a1, t0[k]) == m0[j];
                            assert(t1[k] == t0[k]);
                            assert(alpha.spec_lookup(t0[k]) == a1.spec_lookup(t0[k]));
                            assert(lit_label(*alpha, t1[k]) == members@[j]);
                        } else {
                            if m0.contains(l) {
                                assert(members@ == m0);
                            }
                            assert(members@ == m0.push(l));
                            assert(members@[j] == l);
                            assert(t1[i as int] == names[i as int]);
                            assert(lit_label(*alpha, t1[i as int]) == l);
                        }
                    }
                }
                i = i + 1;
            }
            proof {
                assert(i == names.len());
                assert(names.take(i as int) == names);
                assert(list_members(*alpha, names, members@));
                assert(members_ok(*class, *alpha, *class_table, members@));
            }
            Ok(members)
        },
        CharClassBody::Union(refs) => {
            let ghost names = ident_names(refs@);
            proof {
                lemma_extends_refl(*alpha);
            }
            let mut i: usize = 0;
            while i < refs.len()
                invariant
                    i <= refs@.len(),
                    class_table.wf(),
                    names == ident_names(refs@),
                    names.len() == refs@.len(),
                    class.body == CharClassBody::Union(*refs),
                    forall|k: int| 0 <= k < i ==> #[trigger] class_table.spec_get(names[k]) is Some,
                    members@.no_duplicates(),
                    forall|j: int| 0 <= j < members@.len() ==> #[trigger] in_union(*class_table, names, members@[j]),
                    refs_enumerable(*class_table, names) ==> forall|k: int, l: Label| 0 <= k < i && #[trigger] first_input_of(
                        class_table.spec_get(names[k])->0,
                        l,
                    ) ==> members@.contains(l),
                    *alpha == *old(alpha),
                    alphabet_extends(*old(alpha), *alpha),
                    class.body is Union,
                decreases refs@.len() - i,
            {
                proof {
                    assert(names[i as int] == refs@[i as int].node@);
                }
                let referenced = match class_table.get(refs[i].node.as_str()) {
                    Some(f) => f,
                    None => {
                        let e = ClassCompileError::UnknownClass {
                            referrer: class.name.node.clone(),
                            target: refs[i].node.clone(),
                        };
                        proof {
                            assert(class_table.spec_get(names[i as int]) is None);
                            assert(!union_refs_known(*class_table, names));
                            assert(refs@[i as int].node@ == names[i as int]);
                            assert forall|j: int| 0 <= j < i implies class_table.spec_get((#[trigger] refs@[j]).node@) is Some by {
                                assert(names[j] == refs@[j].node@);
                            }
                            let ClassCompileError::UnknownClass { referrer, target } = e;
                            assert(target@ == refs@[i as int].node@);
                            assert(referrer@ == class.name.node@);
                            assert(class_table.spec_get(target@) is None);
                            assert(0 <= i < refs@.len() && (#[trigger] refs@[i as int]).node@ == target@
                                && class_table.spec_get(target@) is None
                                && forall|j: int| 0 <= j < i ==> class_table.spec_get(refs@[j].node@) is Some);
                            assert(!class_resolves(*class, *class_table));
                        }
                        return Err(e);
                    },
                };
                proof {
                    class_table.lemma_get_wf(names[i as int]);
                }
                let labels = input_labels_of(referenced);
                let mut j: usize = 0;
                while j < labels.len()
                    invariant
                        j <= labels@.len(),
                        i < names.len(),
                        class_table.spec_get(names[i as int]) == Some(*referenced),
                        forall|q: int| 0 <= q < labels@.len() ==> #[trigger] first_input_of(*referenced, labels@[q]),
                        members@.no_duplicates(),
                        forall|q: int| 0 <= q < members@.len() ==> #[trigger] in_union(*class_table, names, members@[q]),
                        forall|q: int| 0 <= q < j ==> members@.contains(#[trigger] labels@[q]),
                        refs_enumerable(*class_table, names) ==> forall|k: int, l: Label| 0 <= k < i && #[trigger] first_input_of(
                            class_table.spec_get(names[k])->0,
                            l,
                        ) ==> members@.contains(l),
                    decreases labels@.len() - j,
                {
                    let ghost m0 = members@;
                    let l = labels[j];
                    push_unique(&mut members, l);
                    proof {
                        assert forall|q: int| 0 <= q < members@.len() implies #[trigger] in_union(*class_table, names, members@[q]) by {
                            if q < m0.len() {
                                assert(members@[q] == m0[q]);
                                assert(in_union(*class_table, names, m0[q]));
                            } else {
                                assert(members@ == m0.push(l));
                                assert(members@[q] == l);
                                assert(first_input_of(*referenced, labels@[j as int]));
                                assert(first_input_of(class_table.spec_get(names[i as int])->0, members@[q]));
                            }
                        }
                    }
                    j = j + 1;
                }
                proof {
                    if refs_enumerable(*class_table, names) {
                        assert(enumerable(class_table.spec_get(names[i as int])->0));
                        assert forall|k: int, l: Label| 0 <= k < i + 1 && #[trigger] first_input_of(
                            class_table.spec_get(names[k])->0,
                            l,
                        ) implies members@.contains(l) by {
                            if k == i {
                                assert(labels@.contains(l));
                                let q = choose|q: int| 0 <= q < labels@.len() && labels@[q] == l;
                                assert(members@.contains(labels@[q]));
                            }
                        }
                    }
                }
                i = i + 1;
            }
            proof {
                if refs_enumerable(*class_table, names) {
                    assert forall|l: Label| #[trigger] in_union(*class_table, names, l) implies members@.contains(l) by {
                        let k = choose|k: int| 0 <= k < names.len() && #[trigger] first_input_of(class_table.spec_get(names[k])->0, l);
                    }
                }
                assert(union_members(*class_table, names, members@));
                assert(members_ok(*class, *alpha, *class_table, members@));
                assert(union_refs_known(*class_table, names));
            }
            Ok(members)
        },
    }
}

/// Interning keeps the alphabet an extension and makes `name` known.
pub proof fn lemma_intern_extends(a1: PhonruleAlphabet, a2: PhonruleAlphabet, name: Seq<char>, l: Label)
    requires
        a1.wf(),
        a2.wf(),
        a2.morpheme_names() == a1.morpheme_names(),
        a1.spec_lookup(name) is Some ==> a2.names() == a1.names() && a2.sigma_seq() == a1.sigma_seq()
            && l == (a1.spec_lookup(name)->0 as u32),
        a1.spec_lookup(name) is None ==> a2.names() == a1.names().push(name)
            && a2.sigma_seq() == a1.sigma_seq().push(l) && l == (a1.names().len() as u32),
        a2.spec_lookup(name) is Some,
    ensures
        alphabet_extends(a1, a2),
        a2.spec_lookup(name) is Some,
        (a2.spec_lookup(name)->0 as Label) == l,
{
    assert forall|n: Seq<char>| #[trigger] a1.spec_lookup(n) is Some implies a2.spec_lookup(n) == a1.spec_lookup(n) by {
        if a1.spec_lookup(name) is None {
            lemma_first_index_push(a1.names(), name, n);
        }
    }
    if a1.spec_lookup(name) is None {
        lemma_first_index_push(a1.names(), name, name);
        assert forall|i: int| 0 <= i < a1.sigma_seq().len() implies a2.sigma_seq().contains(#[trigger] a1.sigma_seq()[i]) by {
            assert(a2.sigma_seq()[i] == a1.sigma_seq()[i]);
        }
    } else {
        super::super::backend::lemma_first_index(a1.names(), name);
        assert forall|i: int| 0 <= i < a1.sigma_seq().len() implies a2.sigma_seq().contains(#[trigger] a1.sigma_seq()[i]) by {
            assert(a2.sigma_seq()[i] == a1.sigma_seq()[i]);
        }
    }
}

pub proof fn lemma_extends_trans(a0: PhonruleAlphabet, a1: PhonruleAlphabet, a2: PhonruleAlphabet)
    requires
        alphabet_extends(a0, a1),
        alphabet_extends(a1, a2),
    ensures
        alphabet_extends(a0, a2),
{
    assert forall|i: int| 0 <= i < a0.sigma_seq().len() implies a2.sigma_seq().contains(#[trigger] a0.sigma_seq()[i]) by {
        assert(a1.sigma_seq().contains(a0.sigma_seq()[i]));
        let j = choose|j: int| 0 <= j < a1.sigma_seq().len() && a1.sigma_seq()[j] == a0.sigma_seq()[i];
        assert(a2.sigma_seq().contains(a1.sigma_seq()[j]));
    }
}

/// Whether `l` occurs in `v`.
pub fn contains_label(v: &Vec<Label>, l: Label) -> (b: bool)
    ensures
        b == v@.contains(l),
{
    let mut i: usize = 0;
    while i < v.len()
        invariant
            i <= v@.len(),
            forall|j: int| 0 <= j < i ==> v@[j] != l,
        decreases v@.len() - i,
    {
        if v[i] == l {
            return true;
        }
        i = i + 1;
    }
    false
}

/// The one-step acceptor of `labels`.
fn build_identity_acceptor(labels: &Vec<Label>) -> (f: Fst)
    ensures
        f.wf(),
        is_step_machine(f, identity_pairs(labels@)),
{
    let mut pairs: Vec<(Label, Label)> = Vec::new();
    let mut i: usize = 0;
    while i < labels.len()
        invariant
            i <= labels@.len(),
            pairs@ == identity_pairs(labels@.take(i as int)),
        decreases labels@.len() - i,
    {
        pairs.push((labels[i], labels[i]));
        proof {
            assert(identity_pairs(labels@.take(i + 1)) =~= identity_pairs(labels@.take(i as int)).push((labels@[i as int], labels@[i as int])));
        }
        i = i + 1;
    }
    proof {
        assert(labels@.take(labels@.len() as int) == labels@);
    }
    step_machine(&pairs)
}

/// Compile a class into the acceptor of its members.
///
/// Fails exactly when a union names a class that is not in the table.
pub fn compile_class(class: &CharClassDef, alpha: &mut PhonruleAlphabet, class_table: &FstTable) -> (r: Result<Fst, ClassCompileError>)
    requires
        old(alpha).wf(),
        class_table.wf(),
    ensures
        alphabet_extends(*old(alpha), *final(alpha)),
        match r {
            Ok(f) => f.wf() && class_resolves(*class, *class_table) && exists|m: Seq<Label>|
                #[trigger] members_ok(*class, *final(alpha), *class_table, m) && is_step_machine(f, identity_pairs(m)),
            Err(e) => !class_resolves(*class, *class_table) && first_unknown_ref(*class, *class_table, e),
        },
{
    let members = resolve_members(class, alpha, class_table)?;
    let f = build_identity_acceptor(&members);
    proof {
        assert(members_ok(*class, *alpha, *class_table, members@));
    }
    Ok(f)
}

/// Compile the complement of a class within Σ: the acceptor of the Σ
/// members that are not class members.
///
/// Fails exactly when [`compile_class`] does.
pub fn compile_class_complement(class: &CharClassDef, alpha: &mut PhonruleAlphabet, class_table: &FstTable) -> (r: Result<Fst, ClassCompileError>)
    requires
        old(alpha).wf(),
        class_table.wf(),
    ensures
        alphabet_extends(*old(alpha), *final(alpha)),
        match r {
            Ok(f) => f.wf() && class_resolves(*class, *class_table) && exists|m: Seq<Label>, c: Seq<Label>|
                #![trigger members_ok(*class, *final(alpha), *class_table, m), identity_pairs(c)]
                members_ok(*class, *final(alpha), *class_table, m) && is_step_machine(f, identity_pairs(c))
                    && c.no_duplicates()
                    && forall|l: Label| #[trigger] c.contains(l) <==> (final(alpha).sigma_seq().contains(l) && !m.contains(l)),
            Err(e) => !class_resolves(*class, *class_table) && first_unknown_ref(*class, *class_table, e),
        },
{
    let members = resolve_members(class, alpha, class_table)?;
    let sigma = alpha.sigma();
    let mut comp: Vec<Label> = Vec::new();
    let mut i: usize = 0;
    while i < sigma.len()
        invariant
            i <= sigma@.len(),
            comp@.no_duplicates(),
            forall|l: Label| #[trigger] comp@.contains(l) <==> (sigma@.take(i as int).contains(l) && !members@.contains(l)),
        decreases sigma@.len() - i,
    {
        let l = sigma[i];
        let mut inside = false;
        let mut j: usize = 0;
        while j < members.len()
            invariant
                j <= members@.len(),
                inside <==> members@.take(j as int).contains(l),
            decreases members@.len() - j,
        {
            if members[j] == l {
                inside = true;
            }
            proof {
                assert(members@.take(j + 1) =~= members@.take(j as int).push(members@[j as int]));
                lemma_contains_push(members@.take(j as int), members@[j as int], l);
            }
            j = j + 1;
        }
        proof {
            assert(members@.take(members@.len() as int) == members@);
            assert(sigma@.take(i + 1) =~= sigma@.take(i as int).push(l));
            assert forall|x: Label| sigma@.take(i + 1).contains(x) == (sigma@.take(i as int).contains(x) || l == x) by {
                lemma_contains_push(sigma@.take(i as int), l, x);
            }
        }
        if !inside && !contains_label(&comp, l) {
            let ghost c0 = comp@;
            comp.push(l);
            proof {
                assert forall|x: Label| #[trigger] comp@.contains(x) <==> (sigma@.take(i + 1).contains(x) && !members@.contains(x)) by {
                    lemma_contains_push(c0, l, x);
                }
                assert(comp@.no_duplicates()) by {
                    assert forall|p: int, q: int| 0 <= p < comp@.len() && 0 <= q < comp@.len() && p != q implies comp@[p] != comp@[q] by {
                        if p < c0.len() && q < c0.len() {
                        } else if p < c0.len() {
                            assert(c0.contains(comp@[p]));
                        } else if q < c0.len() {
                            assert(c0.contains(comp@[q]));
                        }
                    }
                }
            }
        } else {
            proof {
                assert forall|x: Label| #[trigger] comp@.contains(x) <==> (sigma@.take(i + 1).contains(x) && !members@.contains(x)) by {
                    if x == l {
                    }
                }
            }
        }
        i = i + 1;
    }
    proof {
        assert(sigma@.take(sigma@.len() as int) == sigma@);
    }
    let f = build_identity_acceptor(&comp);
    proof {
        assert(members_ok(*class, *alpha, *class_table, members@));
    }
    Ok(f)
}

/// [`compile_class`] with the error turned into an [`FstError::Backend`]
/// carrying its message.
pub fn compile_class_to_fst_result(class: &CharClassDef, alpha: &mut PhonruleAlphabet, class_table: &FstTable) -> (r: FstResult<Fst>)
    requires
        old(alpha).wf(),
        class_table.wf(),
    ensures
        alphabet_extends(*old(alpha), *final(alpha)),
        r is Ok <==> class_resolves(*class, *class_table),
        r matches Ok(f) ==> f.wf() && exists|m: Seq<Label>|
            #[trigger] members_ok(*class, *final(alpha), *class_table, m) && is_step_machine(f, identity_pairs(m)),
{
    match compile_class(class, alpha, class_table) {
        Ok(f) => Ok(f),
        Err(e) => Err(FstError::Backend(e.message())),
    }
}

} // verus!
