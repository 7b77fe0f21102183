//! The machine of a composition chain.
//!
//! * `Slot { name, quantifier }`: the slot's machine (a declared slot
//!   first, then a stem), wrapped by the quantifier: as is, optional,
//!   star, plus, or a bounded repeat.
//! * `Concat(parts)`: the parts' machines concatenated left to right.
//! * `PhonApply { rule, inner }`: the inner machine composed with the
//!   phonrule's machine.

use vstd::prelude::*;

use crate::ast::{ComposeExpr, SlotQuantifier};
use crate::text::str_to_owned;
use super::super::machine::{
    arc_sort_input, arc_sort_output, closure_bounded, closure_optional, closure_plus, closure_star, compose, concat,
    copy_fst, Fst,
};
use super::super::backend::Label;
use super::super::laws::{
    joins, lemma_compose_language, lemma_concat_language, lemma_optional_language, lemma_plus_language,
    lemma_same_shape_accepts, lemma_star_language, repeats,
};
use super::super::machine::accepts;
use super::super::table::FstTable;

verus! {

/// Error building a chain's machine.
#[derive(Debug, Clone, PartialEq, Eq)]
pub enum ChainCompileError {
    /// The chain names a slot that is neither declared nor a stem.
    UnknownSlot { slot_name: String },
    /// The chain applies a phonrule that has no machine.
    UnknownPhonrule { rule_name: String },
    /// A concatenation of nothing.
    EmptyConcat,
    /// A bounded repeat whose minimum exceeds its maximum.
    Backend(String),
}

impl ChainCompileError {
    /// The message shown for this error.
    pub open spec fn msg(&self) -> Seq<char> {
        match self {
            ChainCompileError::UnknownSlot { slot_name } => "compose chain references slot '"@ + slot_name@ + "' which is neither declared nor a stem anchor"@,
            ChainCompileError::UnknownPhonrule { rule_name } => "compose chain references phonrule '"@ + rule_name@ + "' which is not in the phonrule FST table"@,
            ChainCompileError::EmptyConcat => "compose chain has an empty Concat — ambiguous, refusing to compile"@,
            ChainCompileError::Backend(s) => "chain compile backend error: "@ + s@,
        }
    }

    /// The message shown for this error.
    pub fn message(&self) -> (s: String)
        ensures
            s@ == self.msg(),
    {
        match self {
            ChainCompileError::UnknownSlot { slot_name } => {
                let mut out = String::new();
                crate::text::string_push_str(&mut out, "compose chain references slot '");
                crate::text::string_push_str(&mut out, slot_name.as_str());
                crate::text::string_push_str(&mut out, "' which is neither declared nor a stem anchor");
                out
            },
            ChainCompileError::UnknownPhonrule { rule_name } => {
                let mut out = String::new();
                crate::text::string_push_str(&mut out, "compose chain references phonrule '");
                crate::text::string_push_str(&mut out, rule_name.as_str());
                crate::text::string_push_str(&mut out, "' which is not in the phonrule FST table");
                out
            },
            ChainCompileError::EmptyConcat => crate::text::str_to_owned("compose chain has an empty Concat — ambiguous, refusing to compile"),
            ChainCompileError::Backend(s) => {
                let mut out = String::new();
                crate::text::string_push_str(&mut out, "chain compile backend error: ");
                crate::text::string_push_str(&mut out, s.as_str());
                out
            },
        }
    }
}

/// The quantifier can be built: a bounded repeat has `min <= max`.
pub open spec fn quantifier_ok(q: SlotQuantifier) -> bool {
    q matches SlotQuantifier::Bounded { min, max } ==> min <= max
}

/// Every slot the chain names is known, every phonrule it applies is
/// known, no concatenation is empty and every bounded repeat is ordered.
pub open spec fn chain_resolves(
    e: ComposeExpr,
    slot_known: spec_fn(Seq<char>) -> bool,
    rule_known: spec_fn(Seq<char>) -> bool,
) -> bool
    decreases e, 1int, 0int,
{
    match e {
        ComposeExpr::Slot { name, quantifier } => slot_known(name.node@) && quantifier_ok(quantifier),
        ComposeExpr::Concat(parts) => parts@.len() > 0 && parts_resolve_upto(
            e,
            parts@,
            parts@.len() as int,
            slot_known,
            rule_known,
        ),
        ComposeExpr::PhonApply { rule, inner } => chain_resolves(*inner, slot_known, rule_known) && rule_known(
            rule.node@,
        ),
    }
}

/// [`chain_resolves`] for the first `k` parts of `s`, the parts of
/// `parent`.
pub open spec fn parts_resolve_upto(
    parent: ComposeExpr,
    s: Seq<ComposeExpr>,
    k: int,
    slot_known: spec_fn(Seq<char>) -> bool,
    rule_known: spec_fn(Seq<char>) -> bool,
) -> bool
    decreases parent, 0int, k,
{
    if k <= 0 || k > s.len() {
        true
    } else {
        &&& parts_resolve_upto(parent, s, k - 1, slot_known, rule_known)
        &&& if decreases_to!(parent => s[k - 1]) {
            chain_resolves(s[k - 1], slot_known, rule_known)
        } else {
            true
        }
    }
}

/// `e` is the error met first when building the chain's machine: an
/// unknown slot, an unordered bounded repeat, an empty concatenation or an
/// unknown phonrule, the inner chain before its phonrule and the parts
/// left to right.
pub open spec fn chain_fault(
    expr: ComposeExpr,
    slot_known: spec_fn(Seq<char>) -> bool,
    rule_known: spec_fn(Seq<char>) -> bool,
    e: ChainCompileError,
) -> bool
    decreases expr, 1int, 0int,
{
    match expr {
        ComposeExpr::Slot { name, quantifier } => if !slot_known(name.node@) {
            e == ChainCompileError::UnknownSlot { slot_name: name.node }
        } else {
            !quantifier_ok(quantifier) && e is Backend
        },
        ComposeExpr::Concat(parts) => if parts@.len() == 0 {
            e == ChainCompileError::EmptyConcat
        } else {
            parts_fault_upto(expr, parts@, parts@.len() as int, slot_known, rule_known, e)
        },
        ComposeExpr::PhonApply { rule, inner } => if chain_resolves(*inner, slot_known, rule_known) {
            !rule_known(rule.node@) && e == ChainCompileError::UnknownPhonrule { rule_name: rule.node }
        } else {
            chain_fault(*inner, slot_known, rule_known, e)
        },
    }
}

/// [`chain_fault`] for the first of the first `k` parts of `s` (the parts
/// of `parent`) that does not resolve.
pub open spec fn parts_fault_upto(
    parent: ComposeExpr,
    s: Seq<ComposeExpr>,
    k: int,
    slot_known: spec_fn(Seq<char>) -> bool,
    rule_known: spec_fn(Seq<char>) -> bool,
    e: ChainCompileError,
) -> bool
    decreases parent, 0int, k,
{
    if k <= 0 || k > s.len() {
        false
    } else if parts_resolve_upto(parent, s, k - 1, slot_known, rule_known) {
        if decreases_to!(parent => s[k - 1]) {
            chain_fault(s[k - 1], slot_known, rule_known, e)
        } else {
            false
        }
    } else {
        parts_fault_upto(parent, s, k - 1, slot_known, rule_known, e)
    }
}

/// The first failing part's fault is the concatenation's fault.
proof fn lemma_part_fault(
    e: ComposeExpr,
    parts: Vec<ComposeExpr>,
    k: int,
    i: int,
    slot_known: spec_fn(Seq<char>) -> bool,
    rule_known: spec_fn(Seq<char>) -> bool,
    err: ChainCompileError,
)
    requires
        e == ComposeExpr::Concat(parts),
        0 <= i < k <= parts@.len(),
        parts_resolve_upto(e, parts@, i, slot_known, rule_known),
        !chain_resolves(parts@[i], slot_known, rule_known),
        chain_fault(parts@[i], slot_known, rule_known, err),
    ensures
        parts_fault_upto(e, parts@, k, slot_known, rule_known, err),
    decreases k,
{
    assert(decreases_to!(e => e->Concat_0));
    assert(decreases_to!(parts => parts@));
    assert(decreases_to!(parts@ => parts@[i]));
    if k - 1 > i {
        lemma_part_fails(e, parts, k - 1, i, slot_known, rule_known);
        lemma_part_fault(e, parts, k - 1, i, slot_known, rule_known, err);
    }
}

/// A part fails, so the concatenation does not resolve.
proof fn lemma_part_fails(
    e: ComposeExpr,
    parts: Vec<ComposeExpr>,
    k: int,
    i: int,
    slot_known: spec_fn(Seq<char>) -> bool,
    rule_known: spec_fn(Seq<char>) -> bool,
)
    requires
        e == ComposeExpr::Concat(parts),
        0 <= i < k <= parts@.len(),
        !chain_resolves(parts@[i], slot_known, rule_known),
    ensures
        !parts_resolve_upto(e, parts@, k, slot_known, rule_known),
    decreases k,
{
    if i < k - 1 {
        lemma_part_fails(e, parts, k - 1, i, slot_known, rule_known);
    } else {
        assert(decreases_to!(e => e->Concat_0));
        assert(decreases_to!(parts => parts@));
        assert(decreases_to!(parts@ => parts@[i]));
    }
}

/// The parts so far resolve and the next one does too.
proof fn lemma_part_extends(
    e: ComposeExpr,
    parts: Vec<ComposeExpr>,
    k: int,
    slot_known: spec_fn(Seq<char>) -> bool,
    rule_known: spec_fn(Seq<char>) -> bool,
)
    requires
        e == ComposeExpr::Concat(parts),
        0 <= k < parts@.len(),
        parts_resolve_upto(e, parts@, k, slot_known, rule_known),
        chain_resolves(parts@[k], slot_known, rule_known),
    ensures
        parts_resolve_upto(e, parts@, k + 1, slot_known, rule_known),
{
    assert(decreases_to!(e => e->Concat_0));
    assert(decreases_to!(parts => parts@));
    assert(decreases_to!(parts@ => parts@[k]));
}

/// The slot or stem machine named `name`: the table of slots first.
pub open spec fn slot_or_stem_known(slot_fsts: FstTable, stem_fsts: FstTable) -> spec_fn(Seq<char>) -> bool {
    |n: Seq<char>| slot_fsts.spec_get(n) is Some || stem_fsts.spec_get(n) is Some
}

/// The names with a machine in the table.
pub open spec fn table_known(t: FstTable) -> spec_fn(Seq<char>) -> bool {
    |n: Seq<char>| t.spec_get(n) is Some
}

/// `x:y` splits into `x1:y1` followed by `x2:y2`.
pub open spec fn splits(
    x: Seq<Label>,
    y: Seq<Label>,
    x1: Seq<Label>,
    x2: Seq<Label>,
    y1: Seq<Label>,
    y2: Seq<Label>,
) -> bool {
    x == x1 + x2 && y == y1 + y2
}

/// The machine a slot name stands for: its declared slot's, else its
/// stem's.
pub open spec fn slot_machine(slot_fsts: FstTable, stem_fsts: FstTable, n: Seq<char>) -> Fst {
    match slot_fsts.spec_get(n) {
        Some(f) => f,
        None => stem_fsts.spec_get(n)->0,
    }
}

/// `x:y` is what the quantifier makes of `a`: one pair of `a`, at most
/// one, any number, at least one, or between `min` and `max` of them
/// joined end to end.
pub open spec fn quantified_maps(a: Fst, q: SlotQuantifier, x: Seq<Label>, y: Seq<Label>) -> bool {
    match q {
        SlotQuantifier::One => accepts(a, x, y),
        SlotQuantifier::ZeroOrOne => accepts(a, x, y) || (x.len() == 0 && y.len() == 0),
        SlotQuantifier::ZeroOrMore => exists|parts: Seq<(Seq<Label>, Seq<Label>)>| #[trigger] joins(a, parts, x, y),
        SlotQuantifier::OneOrMore => exists|parts: Seq<(Seq<Label>, Seq<Label>)>| parts.len() >= 1 && #[trigger] joins(a, parts, x, y),
        SlotQuantifier::Bounded { min, max } => exists|parts: Seq<(Seq<Label>, Seq<Label>)>|
            min <= parts.len() <= max && #[trigger] joins(a, parts, x, y),
    }
}

/// The pairs the chain maps: a slot's pairs under its quantifier; the
/// parts' pairs concatenated; the inner chain's pairs composed with the
/// phonrule's.
pub open spec fn chain_maps(
    e: ComposeExpr,
    slot_fsts: FstTable,
    stem_fsts: FstTable,
    rule_fsts: FstTable,
    x: Seq<Label>,
    y: Seq<Label>,
) -> bool
    decreases e, 1int, 0int,
{
    match e {
        ComposeExpr::Slot { name, quantifier } => quantified_maps(slot_machine(slot_fsts, stem_fsts, name.node@), quantifier, x, y),
        ComposeExpr::Concat(parts) => parts_map_upto(e, parts@, parts@.len() as int, slot_fsts, stem_fsts, rule_fsts, x, y),
        ComposeExpr::PhonApply { rule, inner } => exists|z: Seq<Label>|
            chain_maps(*inner, slot_fsts, stem_fsts, rule_fsts, x, z) && #[trigger] accepts(rule_fsts.spec_get(rule.node@)->0, z, y),
    }
}

/// [`chain_maps`] for the first `k` parts of `s`, the parts of `parent`,
/// concatenated.
pub open spec fn parts_map_upto(
    parent: ComposeExpr,
    s: Seq<ComposeExpr>,
    k: int,
    slot_fsts: FstTable,
    stem_fsts: FstTable,
    rule_fsts: FstTable,
    x: Seq<Label>,
    y: Seq<Label>,
) -> bool
    decreases parent, 0int, k,
{
    if k <= 0 || k > s.len() {
        x.len() == 0 && y.len() == 0
    } else {
        exists|x1: Seq<Label>, x2: Seq<Label>, y1: Seq<Label>, y2: Seq<Label>|
            #[trigger] splits(x, y, x1, x2, y1, y2) && parts_map_upto(parent, s, k - 1, slot_fsts, stem_fsts, rule_fsts, x1, y1)
                && if decreases_to!(parent => s[k - 1]) {
                chain_maps(s[k - 1], slot_fsts, stem_fsts, rule_fsts, x2, y2)
            } else {
                false
            }
    }
}

/// Build the machine of a chain.
///
/// A slot name is looked up among the slots, then among the stems.
/// Succeeds exactly when [`chain_resolves`]; fails with `UnknownSlot` or
/// `UnknownPhonrule` for a name without a machine, `EmptyConcat` for an
/// empty concatenation and `Backend` for a bounded repeat with
/// `min > max`.
pub fn build_chain_fst(
    expr: &ComposeExpr,
    slot_fsts: &FstTable,
    stem_fsts: &FstTable,
    phonrule_fsts: &FstTable,
) -> (r: Result<Fst, ChainCompileError>)
    requires
        slot_fsts.wf(),
        stem_fsts.wf(),
        phonrule_fsts.wf(),
    ensures
        r is Ok <==> chain_resolves(*expr, slot_or_stem_known(*slot_fsts, *stem_fsts), table_known(*phonrule_fsts)),
        r matches Ok(f) ==> f.wf(),
        r matches Ok(f) ==> forall|x: Seq<Label>, y: Seq<Label>|
            #[trigger] accepts(f, x, y) <==> chain_maps(*expr, *slot_fsts, *stem_fsts, *phonrule_fsts, x, y),
        r matches Err(ChainCompileError::UnknownSlot { slot_name }) ==> slot_fsts.spec_get(slot_name@) is None
            && stem_fsts.spec_get(slot_name@) is None,
        r matches Err(ChainCompileError::UnknownPhonrule { rule_name }) ==> phonrule_fsts.spec_get(rule_name@) is None,
        r matches Err(e) ==> chain_fault(*expr, slot_or_stem_known(*slot_fsts, *stem_fsts), table_known(*phonrule_fsts), e),
        (expr matches ComposeExpr::Concat(parts) && parts@.len() == 0) ==> r == Err::<Fst, ChainCompileError>(
            ChainCompileError::EmptyConcat,
        ),
{
    build_inner(expr, slot_fsts, stem_fsts, phonrule_fsts)
}

fn build_inner(
    expr: &ComposeExpr,
    slot_fsts: &FstTable,
    stem_fsts: &FstTable,
    phonrule_fsts: &FstTable,
) -> (r: Result<Fst, ChainCompileError>)
    requires
        slot_fsts.wf(),
        stem_fsts.wf(),
        phonrule_fsts.wf(),
    ensures
        r is Ok <==> chain_resolves(*expr, slot_or_stem_known(*slot_fsts, *stem_fsts), table_known(*phonrule_fsts)),
        r matches Ok(f) ==> f.wf(),
        r matches Ok(f) ==> forall|x: Seq<Label>, y: Seq<Label>|
            #[trigger] accepts(f, x, y) <==> chain_maps(*expr, *slot_fsts, *stem_fsts, *phonrule_fsts, x, y),
        r matches Err(ChainCompileError::UnknownSlot { slot_name }) ==> slot_fsts.spec_get(slot_name@) is None
            && stem_fsts.spec_get(slot_name@) is None,
        r matches Err(ChainCompileError::UnknownPhonrule { rule_name }) ==> phonrule_fsts.spec_get(rule_name@) is None,
        r matches Err(e) ==> chain_fault(*expr, slot_or_stem_known(*slot_fsts, *stem_fsts), table_known(*phonrule_fsts), e),
        (expr matches ComposeExpr::Concat(parts) && parts@.len() == 0) ==> r == Err::<Fst, ChainCompileError>(
            ChainCompileError::EmptyConcat,
        ),
    decreases expr,
{
    let ghost sk = slot_or_stem_known(*slot_fsts, *stem_fsts);
    let ghost rk = table_known(*phonrule_fsts);
    match expr {
        ComposeExpr::Slot { name, quantifier } => {
            let base = match slot_fsts.get(name.node.as_str()) {
                Some(f) => {
                    proof {
                        slot_fsts.lemma_get_wf(name.node@);
                    }
                    f
                },
                None => match stem_fsts.get(name.node.as_str()) {
                    Some(f) => {
                        proof {
                            stem_fsts.lemma_get_wf(name.node@);
                        }
                        f
                    },
                    None => {
                        return Err(ChainCompileError::UnknownSlot { slot_name: name.node.clone() });
                    },
                },
            };
            proof {
                assert(*base == slot_machine(*slot_fsts, *stem_fsts, name.node@));
            }
            wrap_quantifier(base, *quantifier)
        },
        ComposeExpr::Concat(parts) => {
            if parts.len() == 0 {
                return Err(ChainCompileError::EmptyConcat);
            }
            proof {
                assert(decreases_to!(*expr => expr->Concat_0));
                assert(decreases_to!(*parts => parts@));
                assert(decreases_to!(parts@ => parts@[0]));
            }
            let first = build_inner(&parts[0], slot_fsts, stem_fsts, phonrule_fsts);
            let mut acc = match first {
                Ok(f) => f,
                Err(e) => {
                    proof {
                        lemma_part_fails(*expr, *parts, parts@.len() as int, 0, sk, rk);
                        lemma_part_fault(*expr, *parts, parts@.len() as int, 0, sk, rk, e);
                    }
                    return Err(e);
                },
            };
            proof {
                lemma_part_extends(*expr, *parts, 0, sk, rk);
                assert forall|x: Seq<Label>, y: Seq<Label>|
                    #[trigger] accepts(acc, x, y) <==> parts_map_upto(*expr, parts@, 1, *slot_fsts, *stem_fsts, *phonrule_fsts, x, y) by {
                    let e0 = Seq::<Label>::empty();
                    if accepts(acc, x, y) {
                        assert(splits(x, y, e0, x, e0, y));
                        assert(parts_map_upto(*expr, parts@, 0, *slot_fsts, *stem_fsts, *phonrule_fsts, e0, e0));
                    }
                    if parts_map_upto(*expr, parts@, 1, *slot_fsts, *stem_fsts, *phonrule_fsts, x, y) {
                        let (x1, x2, y1, y2) = choose|x1: Seq<Label>, x2: Seq<Label>, y1: Seq<Label>, y2: Seq<Label>|
                            #[trigger] splits(x, y, x1, x2, y1, y2) && parts_map_upto(*expr, parts@, 0, *slot_fsts, *stem_fsts, *phonrule_fsts, x1, y1)
                                && if decreases_to!(*expr => parts@[0]) {
                                chain_maps(parts@[0], *slot_fsts, *stem_fsts, *phonrule_fsts, x2, y2)
                            } else {
                                false
                            };
                        assert(x1 =~= e0 && y1 =~= e0);
                        assert(x =~= x2 && y =~= y2);
                    }
                }
            }
            let mut i: usize = 1;
            while i < parts.len()
                invariant
                    1 <= i <= parts@.len(),
                    slot_fsts.wf(),
                    stem_fsts.wf(),
                    phonrule_fsts.wf(),
                    *expr == ComposeExpr::Concat(*parts),
                    sk == slot_or_stem_known(*slot_fsts, *stem_fsts),
                    rk == table_known(*phonrule_fsts),
                    acc.wf(),
                    parts_resolve_upto(*expr, parts@, i as int, sk, rk),
                    forall|x: Seq<Label>, y: Seq<Label>|
                        #[trigger] accepts(acc, x, y) <==> parts_map_upto(*expr, parts@, i as int, *slot_fsts, *stem_fsts, *phonrule_fsts, x, y),
                decreases parts@.len() - i,
            {
                proof {
                    assert(decreases_to!(*expr => expr->Concat_0));
                    assert(decreases_to!(*parts => parts@));
                    assert(decreases_to!(parts@ => parts@[i as int]));
                }
                let next = match build_inner(&parts[i], slot_fsts, stem_fsts, phonrule_fsts) {
                    Ok(f) => f,
                    Err(e) => {
                        proof {
                            lemma_part_fails(*expr, *parts, parts@.len() as int, i as int, sk, rk);
                            lemma_part_fault(*expr, *parts, parts@.len() as int, i as int, sk, rk, e);
                        }
                        return Err(e);
                    },
                };
                proof {
                    lemma_part_extends(*expr, *parts, i as int, sk, rk);
                }
                let ghost acc0 = acc;
                acc = concat(&acc, &next);
                proof {
                    assert(decreases_to!(*expr => parts@[i as int]));
                    assert forall|x: Seq<Label>, y: Seq<Label>|
                        #[trigger] accepts(acc, x, y) <==> parts_map_upto(*expr, parts@, i + 1, *slot_fsts, *stem_fsts, *phonrule_fsts, x, y) by {
                        lemma_concat_language(acc0, next, acc, x, y);
                        if accepts(acc, x, y) {
                            let (x1, x2, y1, y2) = choose|x1: Seq<Label>, x2: Seq<Label>, y1: Seq<Label>, y2: Seq<Label>|
                                #![trigger accepts(acc0, x1, y1), accepts(next, x2, y2)]
                                x == x1 + x2 && y == y1 + y2 && accepts(acc0, x1, y1) && accepts(next, x2, y2);
                            assert(splits(x, y, x1, x2, y1, y2));
                        }
                        if parts_map_upto(*expr, parts@, i + 1, *slot_fsts, *stem_fsts, *phonrule_fsts, x, y) {
                            let (x1, x2, y1, y2) = choose|x1: Seq<Label>, x2: Seq<Label>, y1: Seq<Label>, y2: Seq<Label>|
                                #[trigger] splits(x, y, x1, x2, y1, y2) && parts_map_upto(*expr, parts@, i as int, *slot_fsts, *stem_fsts, *phonrule_fsts, x1, y1)
                                    && if decreases_to!(*expr => parts@[i as int]) {
                                    chain_maps(parts@[i as int], *slot_fsts, *stem_fsts, *phonrule_fsts, x2, y2)
                                } else {
                                    false
                                };
                            assert(accepts(acc0, x1, y1));
                            assert(accepts(next, x2, y2));
                        }
                    }
                }
                i = i + 1;
            }
            Ok(acc)
        },
        ComposeExpr::PhonApply { rule, inner } => {
            let inner_fst = build_inner(inner, slot_fsts, stem_fsts, phonrule_fsts)?;
            let rule_fst = match phonrule_fsts.get(rule.node.as_str()) {
                Some(f) => f,
                None => {
                    return Err(ChainCompileError::UnknownPhonrule { rule_name: rule.node.clone() });
                },
            };
            proof {
                phonrule_fsts.lemma_get_wf(rule.node@);
            }
            let left = arc_sort_output(&inner_fst);
            let right = arc_sort_input(rule_fst);
            let f = compose(&left, &right);
            proof {
                assert forall|x: Seq<Label>, y: Seq<Label>|
                    #[trigger] accepts(f, x, y) <==> chain_maps(*expr, *slot_fsts, *stem_fsts, *phonrule_fsts, x, y) by {
                    lemma_compose_language(left, right, f, x, y);
                    if accepts(f, x, y) {
                        let z = choose|z: Seq<Label>| accepts(left, x, z) && accepts(right, z, y);
                        lemma_same_shape_accepts(left, inner_fst, x, z);
                        lemma_same_shape_accepts(right, *rule_fst, z, y);
                    }
                    if chain_maps(*expr, *slot_fsts, *stem_fsts, *phonrule_fsts, x, y) {
                        let z = choose|z: Seq<Label>|
                            chain_maps(**inner, *slot_fsts, *stem_fsts, *phonrule_fsts, x, z) && #[trigger] accepts(
                                phonrule_fsts.spec_get(rule.node@)->0, z, y);
                        lemma_same_shape_accepts(left, inner_fst, x, z);
                        lemma_same_shape_accepts(right, *rule_fst, z, y);
                    }
                }
            }
            Ok(f)
        },
    }
}

/// Wrap a slot's machine by its quantifier.
fn wrap_quantifier(fst: &Fst, quantifier: SlotQuantifier) -> (r: Result<Fst, ChainCompileError>)
    requires
        fst.wf(),
    ensures
        r is Ok <==> quantifier_ok(quantifier),
        r matches Ok(f) ==> f.wf(),
        r matches Ok(f) ==> forall|x: Seq<Label>, y: Seq<Label>|
            #[trigger] accepts(f, x, y) <==> quantified_maps(*fst, quantifier, x, y),
        r matches Err(e) ==> e is Backend,
{
    match quantifier {
        SlotQuantifier::One => {
            let f = copy_fst(fst);
            proof {
                assert forall|x: Seq<Label>, y: Seq<Label>| #[trigger] accepts(f, x, y) <==> quantified_maps(*fst, quantifier, x, y) by {
                    lemma_same_shape_accepts(f, *fst, x, y);
                }
            }
            Ok(f)
        },
        SlotQuantifier::ZeroOrOne => {
            let f = closure_optional(fst);
            proof {
                assert forall|x: Seq<Label>, y: Seq<Label>| #[trigger] accepts(f, x, y) <==> quantified_maps(*fst, quantifier, x, y) by {
                    lemma_optional_language(*fst, f, x, y);
                }
            }
            Ok(f)
        },
        SlotQuantifier::ZeroOrMore => {
            let f = closure_star(fst);
            proof {
                assert forall|x: Seq<Label>, y: Seq<Label>| #[trigger] accepts(f, x, y) <==> quantified_maps(*fst, quantifier, x, y) by {
                    lemma_star_language(*fst, f, x, y);
                }
            }
            Ok(f)
        },
        SlotQuantifier::OneOrMore => {
            let f = closure_plus(fst);
            proof {
                assert forall|x: Seq<Label>, y: Seq<Label>| #[trigger] accepts(f, x, y) <==> quantified_maps(*fst, quantifier, x, y) by {
                    lemma_plus_language(*fst, f, x, y);
                }
            }
            Ok(f)
        },
        SlotQuantifier::Bounded { min, max } => match closure_bounded(fst, min, max) {
            Ok(f) => {
                proof {
                    assert forall|x: Seq<Label>, y: Seq<Label>| #[trigger] accepts(f, x, y) <==> quantified_maps(*fst, quantifier, x, y) by {
                        assert(repeats(f, *fst, min as int, max as int));
                    }
                }
                Ok(f)
            },
            Err(_) => Err(ChainCompileError::Backend(str_to_owned("closure_bounded: n > m"))),
        },
    }
}

} // verus!
