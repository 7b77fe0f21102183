//! Maps as one-step transducers.
//!
//! A map reads one symbol and writes one: each arm `"x" -> r` maps `x` to
//! `r` (or to itself when `r` is the map's parameter), the first arm for a
//! symbol winning; every other Σ member goes to the `else` literal, or to
//! itself when there is no `else` or it names the parameter.

use vstd::prelude::*;

use crate::ast::{PhonMapArm, PhonMapBody, PhonMapDef, PhonMapElse, PhonMapResult};
use super::super::alphabet::PhonruleAlphabet;
use super::super::backend::{lemma_first_index, Label};
use super::super::machine::{is_step_machine, step_machine, Fst};
use super::class::{
    alphabet_extends, contains_label, lemma_contains_push, lit_label, lemma_extends_refl, lemma_extends_trans, lemma_intern_extends,
};

verus! {

/// The inputs of the pairs.
pub open spec fn pair_inputs(pairs: Seq<(Label, Label)>) -> Seq<Label> {
    pairs.map_values(|p: (Label, Label)| p.0)
}

/// What an arm writes for the symbol `s` it reads.
pub open spec fn result_text(to: PhonMapResult, s: Seq<char>) -> Seq<char> {
    match to {
        PhonMapResult::Literal(lit) => lit.node@,
        PhonMapResult::Var(_) => s,
    }
}

/// What the first of `arms` that reads `s` writes, if any arm reads it.
pub open spec fn arm_text(arms: Seq<PhonMapArm>, s: Seq<char>) -> Option<Seq<char>>
    decreases arms.len(),
{
    if arms.len() == 0 {
        None
    } else {
        match arm_text(arms.drop_last(), s) {
            Some(t) => Some(t),
            None => if arms.last().from.node@ == s {
                Some(result_text(arms.last().to, s))
            } else {
                None
            },
        }
    }
}

/// What the map writes for the symbol `s`: the first matching arm's
/// result, else the `else` literal, else `s` itself.
pub open spec fn map_text(map: PhonMapDef, s: Seq<char>) -> Seq<char> {
    match map.body {
        PhonMapBody::Match { arms, else_arm } => match arm_text(arms@, s) {
            Some(t) => t,
            None => match else_arm {
                Some(PhonMapElse::Literal(lit)) => lit.node@,
                _ => s,
            },
        },
    }
}

/// The arms of a map.
pub open spec fn map_arms(map: PhonMapDef) -> Seq<PhonMapArm> {
    match map.body {
        PhonMapBody::Match { arms, else_arm } => arms@,
    }
}

proof fn lemma_arm_text_push(arms: Seq<PhonMapArm>, i: int, s: Seq<char>)
    requires
        0 <= i < arms.len(),
    ensures
        arm_text(arms.take(i + 1), s) == (match arm_text(arms.take(i), s) {
            Some(t) => Some(t),
            None => if arms[i].from.node@ == s {
                Some(result_text(arms[i].to, s))
            } else {
                None
            },
        }),
{
    assert(arms.take(i + 1).drop_last() =~= arms.take(i));
}

/// Some arm among `arms` reads `s` exactly when `arm_text` finds one.
proof fn lemma_arm_text_some(arms: Seq<PhonMapArm>, s: Seq<char>)
    ensures
        arm_text(arms, s) is Some <==> exists|j: int| 0 <= j < arms.len() && (#[trigger] arms[j]).from.node@ == s,
    decreases arms.len(),
{
    if arms.len() > 0 {
        lemma_arm_text_some(arms.drop_last(), s);
        if exists|j: int| 0 <= j < arms.len() && (#[trigger] arms[j]).from.node@ == s {
            let j = choose|j: int| 0 <= j < arms.len() && (#[trigger] arms[j]).from.node@ == s;
            if j < arms.len() - 1 {
                assert(arms.drop_last()[j] == arms[j]);
            }
        }
        if exists|j: int| 0 <= j < arms.drop_last().len() && (#[trigger] arms.drop_last()[j]).from.node@ == s {
            let j = choose|j: int| 0 <= j < arms.drop_last().len() && (#[trigger] arms.drop_last()[j]).from.node@ == s;
            assert(arms[j] == arms.drop_last()[j]);
        }
    }
}

/// No arm among the first `i` reads `s`.
pub open spec fn no_arm_before(arms: Seq<PhonMapArm>, i: int, s: Seq<char>) -> bool {
    forall|j: int| 0 <= j < i ==> (#[trigger] arms[j]).from.node@ != s
}

/// `arms[i]` is the first arm that reads `s`.
pub open spec fn first_arm_reading(arms: Seq<PhonMapArm>, i: int, s: Seq<char>) -> bool {
    &&& 0 <= i < arms.len()
    &&& arms[i].from.node@ == s
    &&& no_arm_before(arms, i, s)
}

/// Where `arms[i]` is the first arm that reads `s`, what the arms write
/// for `s` is that arm's result.
proof fn lemma_arm_text_first(arms: Seq<PhonMapArm>, i: int, s: Seq<char>)
    requires
        first_arm_reading(arms, i, s),
    ensures
        arm_text(arms, s) == Some(result_text(arms[i].to, s)),
    decreases arms.len(),
{
    let rest = arms.drop_last();
    if i == arms.len() - 1 {
        lemma_arm_text_some(rest, s);
        if exists|j: int| 0 <= j < rest.len() && (#[trigger] rest[j]).from.node@ == s {
            let j = choose|j: int| 0 <= j < rest.len() && (#[trigger] rest[j]).from.node@ == s;
            assert(rest[j] == arms[j]);
        }
    } else {
        assert(rest[i] == arms[i]);
        assert forall|j: int| 0 <= j < i implies (#[trigger] rest[j]).from.node@ != s by {
            assert(rest[j] == arms[j]);
        }
        lemma_arm_text_first(rest, i, s);
    }
}

/// Pair `p` reads the known symbol `t` and writes the label of what the
/// map writes for `t`.
pub open spec fn map_pair_of(alpha: PhonruleAlphabet, map: PhonMapDef, p: (Label, Label), t: Seq<char>) -> bool {
    &&& alpha.spec_lookup(t) is Some
    &&& p.0 == lit_label(alpha, t)
    &&& alpha.spec_lookup(map_text(map, t)) is Some
    &&& p.1 == lit_label(alpha, map_text(map, t))
}

/// `f` is the map's one-step transducer over `alpha`: its `k`-th arc reads
/// `texts[k]`, each input once; every Σ member and every arm's symbol is
/// read, and nothing else.
pub open spec fn is_map_machine(
    f: Fst,
    alpha: PhonruleAlphabet,
    map: PhonMapDef,
    pairs: Seq<(Label, Label)>,
    texts: Seq<Seq<char>>,
) -> bool {
    &&& is_step_machine(f, pairs)
    &&& pair_inputs(pairs).no_duplicates()
    &&& texts.len() == pairs.len()
    &&& forall|k: int| 0 <= k < pairs.len() ==> map_pair_of(alpha, map, #[trigger] pairs[k], texts[k])
    &&& forall|l: Label| alpha.sigma_seq().contains(l) ==> #[trigger] pair_inputs(pairs).contains(l)
    &&& forall|j: int| 0 <= j < map_arms(map).len() ==> #[trigger] pair_inputs(pairs).contains(
        lit_label(alpha, map_arms(map)[j].from.node@))
    &&& forall|k: int| 0 <= k < pairs.len() ==> alpha.sigma_seq().contains((#[trigger] pairs[k]).0)
        || arm_text(map_arms(map), texts[k]) is Some
}

/// Compile a map into its one-step transducer: one arc per symbol that an
/// arm reads or that belongs to Σ, each input once, reading a symbol and
/// writing what [`map_text`] gives for it.
pub fn compile_map(map: &PhonMapDef, alpha: &mut PhonruleAlphabet) -> (f: Fst)
    requires
        old(alpha).wf(),
    ensures
        f.wf(),
        alphabet_extends(*old(alpha), *final(alpha)),
        forall|j: int| 0 <= j < map_arms(*map).len() ==> final(alpha).spec_lookup((#[trigger] map_arms(*map)[j]).from.node@) is Some,
        exists|pairs: Seq<(Label, Label)>, texts: Seq<Seq<char>>| #[trigger] is_map_machine(f, *final(alpha), *map, pairs, texts),
{
    proof {
        lemma_extends_refl(*alpha);
    }
    let ghost a0 = *alpha;
    let PhonMapBody::Match { arms, else_arm } = &map.body;
    let mut covered: Vec<Label> = Vec::new();
    let mut pairs: Vec<(Label, Label)> = Vec::new();
    let ghost mut ptext: Seq<Seq<char>> = seq![];
    let mut i: usize = 0;
    while i < arms.len()
        invariant
            i <= arms@.len(),
            arms@ == map_arms(*map),
            a0.wf(),
            a0 == *old(alpha),
            alphabet_extends(a0, *alpha),
            covered@ == pair_inputs(pairs@),
            covered@.no_duplicates(),
            ptext.len() == pairs@.len(),
            forall|k: int| 0 <= k < pairs@.len() ==> alpha.spec_lookup(#[trigger] ptext[k]) is Some && pairs@[k].0 == lit_label(*alpha, ptext[k])
                && arm_text(arms@.take(i as int), ptext[k]) is Some
                && alpha.spec_lookup(arm_text(arms@.take(i as int), ptext[k])->0) is Some
                && pairs@[k].1 == lit_label(*alpha, arm_text(arms@.take(i as int), ptext[k])->0),
            forall|j: int| 0 <= j < i ==> alpha.spec_lookup((#[trigger] arms@[j]).from.node@) is Some
                && covered@.contains(lit_label(*alpha, arms@[j].from.node@)),
        decreases arms@.len() - i,
    {
        let ghost a1 = *alpha;
        let from_label = alpha.intern(arms[i].from.node.as_str());
        let ghost from = arms@[i as int].from.node@;
        proof {
            lemma_intern_extends(a1, *alpha, from, from_label);
            lemma_extends_trans(a0, a1, *alpha);
            assert forall|s: Seq<char>| #[trigger] arm_text(arms@.take(i + 1), s) is Some && arm_text(arms@.take(i as int), s) is Some
                implies arm_text(arms@.take(i + 1), s) == arm_text(arms@.take(i as int), s) by {
                lemma_arm_text_push(arms@, i as int, s);
            }
            assert forall|k: int| 0 <= k < pairs@.len() implies alpha.spec_lookup(#[trigger] ptext[k]) is Some && pairs@[k].0 == lit_label(*alpha, ptext[k])
                && arm_text(arms@.take(i + 1), ptext[k]) is Some
                && alpha.spec_lookup(arm_text(arms@.take(i + 1), ptext[k])->0) is Some
                && pairs@[k].1 == lit_label(*alpha, arm_text(arms@.take(i + 1), ptext[k])->0) by {
                lemma_arm_text_push(arms@, i as int, ptext[k]);
                assert(a1.spec_lookup(ptext[k]) is Some);
                assert(a1.spec_lookup(arm_text(arms@.take(i as int), ptext[k])->0) is Some);
            }
            assert forall|j: int| 0 <= j < i implies alpha.spec_lookup((#[trigger] arms@[j]).from.node@) is Some
                && covered@.contains(lit_label(*alpha, arms@[j].from.node@)) by {
                assert(a1.spec_lookup(arms@[j].from.node@) is Some);
            }
        }
        if !contains_label(&covered, from_label) {
            proof {
                lemma_arm_text_some(arms@.take(i as int), from);
                if arm_text(arms@.take(i as int), from) is Some {
                    let j = choose|j: int| 0 <= j < arms@.take(i as int).len() && (#[trigger] arms@.take(i as int)[j]).from.node@ == from;
                    assert(arms@[j].from.node@ == from);
                    assert(covered@.contains(lit_label(*alpha, arms@[j].from.node@)));
                }
                lemma_arm_text_push(arms@, i as int, from);
            }
            let ghost a2 = *alpha;
            let to_label = match &arms[i].to {
                PhonMapResult::Literal(lit) => {
                    let l = alpha.intern(lit.node.as_str());
                    proof {
                        lemma_intern_extends(a2, *alpha, lit.node@, l);
                        lemma_extends_trans(a0, a2, *alpha);
                    }
                    l
                },
                PhonMapResult::Var(_) => from_label,
            };
            let ghost c0 = covered@;
            let ghost p0 = pairs@;
            let ghost t0 = ptext;
            covered.push(from_label);
            pairs.push((from_label, to_label));
            proof {
                ptext = ptext.push(from);
                assert(pair_inputs(pairs@) =~= pair_inputs(p0).push(from_label));
                assert(covered@.no_duplicates()) by {
                    assert forall|p: int, q: int| 0 <= p < covered@.len() && 0 <= q < covered@.len() && p != q implies covered@[p] != covered@[q] by {
                        if p < c0.len() && q < c0.len() {
                        } else if p < c0.len() {
                            assert(c0.contains(covered@[p]));
                        } else if q < c0.len() {
                            assert(c0.contains(covered@[q]));
                        }
                    }
                }
                assert forall|k: int| 0 <= k < pairs@.len() implies alpha.spec_lookup(#[trigger] ptext[k]) is Some && pairs@[k].0 == lit_label(*alpha, ptext[k])
                    && arm_text(arms@.take(i + 1), ptext[k]) is Some
                    && alpha.spec_lookup(arm_text(arms@.take(i + 1), ptext[k])->0) is Some
                    && pairs@[k].1 == lit_label(*alpha, arm_text(arms@.take(i + 1), ptext[k])->0) by {
                    if k < p0.len() {
                        assert(ptext[k] == t0[k]);
                        assert(pairs@[k] == p0[k]);
                        assert(a2.spec_lookup(t0[k]) is Some);
                        assert(a2.spec_lookup(arm_text(arms@.take(i + 1), ptext[k])->0) is Some);
                    } else {
                        assert(ptext[k] == from);
                        assert(a2.spec_lookup(from) is Some);
                    }
                }
                assert forall|j: int| 0 <= j < i + 1 implies alpha.spec_lookup((#[trigger] arms@[j]).from.node@) is Some
                    && covered@.contains(lit_label(*alpha, arms@[j].from.node@)) by {
                    assert(a2.spec_lookup(arms@[j].from.node@) is Some);
                    if j < i {
                        assert(c0.contains(lit_label(*alpha, arms@[j].from.node@)));
                        lemma_contains_push(c0, from_label, lit_label(*alpha, arms@[j].from.node@));
                    } else {
                        assert(covered@[c0.len() as int] == from_label);
                    }
                }
            }
        } else {
            proof {
                assert forall|j: int| 0 <= j < i + 1 implies alpha.spec_lookup((#[trigger] arms@[j]).from.node@) is Some
                    && covered@.contains(lit_label(*alpha, arms@[j].from.node@)) by {
                }
            }
        }
        i = i + 1;
    }
    proof {
        assert(arms@.take(arms@.len() as int) =~= arms@);
    }
    let ghost a3 = *alpha;
    let else_label: Option<Label> = match else_arm {
        None => None,
        Some(PhonMapElse::Var(_)) => None,
        Some(PhonMapElse::Literal(lit)) => {
            let l = alpha.intern(lit.node.as_str());
            proof {
                lemma_intern_extends(a3, *alpha, lit.node@, l);
                lemma_extends_trans(a0, a3, *alpha);
            }
            Some(l)
        },
    };
    proof {
        assert forall|k: int| 0 <= k < pairs@.len() implies map_pair_of(*alpha, *map, #[trigger] pairs@[k], ptext[k])
            && arm_text(arms@, ptext[k]) is Some by {
            assert(a3.spec_lookup(ptext[k]) is Some);
            assert(a3.spec_lookup(arm_text(arms@, ptext[k])->0) is Some);
        }
        assert forall|j: int| 0 <= j < arms@.len() implies alpha.spec_lookup((#[trigger] arms@[j]).from.node@) is Some
            && covered@.contains(lit_label(*alpha, arms@[j].from.node@)) by {
            assert(a3.spec_lookup(arms@[j].from.node@) is Some);
        }
    }
    let sigma = alpha.sigma();
    proof {
        alpha.lemma_sigma_named();
    }
    let mut k: usize = 0;
    while k < sigma.len()
        invariant
            k <= sigma@.len(),
            sigma@ == alpha.sigma_seq(),
            alpha.wf(),
            arms@ == map_arms(*map),
            map.body == (PhonMapBody::Match { arms: *arms, else_arm: *else_arm }),
            forall|q: int| 0 <= q < sigma@.len() ==> (#[trigger] sigma@[q]) < alpha.names().len(),
            match else_arm {
                Some(PhonMapElse::Literal(lit)) => else_label == Some(lit_label(*alpha, lit.node@)) && alpha.spec_lookup(lit.node@) is Some,
                _ => else_label is None,
            },
            covered@ == pair_inputs(pairs@),
            covered@.no_duplicates(),
            ptext.len() == pairs@.len(),
            forall|q: int| 0 <= q < pairs@.len() ==> map_pair_of(*alpha, *map, #[trigger] pairs@[q], ptext[q])
                && (arm_text(arms@, ptext[q]) is Some || alpha.sigma_seq().contains(pairs@[q].0)),
            forall|j: int| 0 <= j < arms@.len() ==> alpha.spec_lookup((#[trigger] arms@[j]).from.node@) is Some
                && covered@.contains(lit_label(*alpha, arms@[j].from.node@)),
            forall|j: int| 0 <= j < k ==> #[trigger] covered@.contains(sigma@[j]),
        decreases sigma@.len() - k,
    {
        let sym = sigma[k];
        if !contains_label(&covered, sym) {
            let ghost name = alpha.names()[sym as int];
            proof {
                alpha.lemma_name_label(sym as int);
                lemma_arm_text_some(arms@, name);
                if arm_text(arms@, name) is Some {
                    let j = choose|j: int| 0 <= j < arms@.len() && (#[trigger] arms@[j]).from.node@ == name;
                    assert(covered@.contains(lit_label(*alpha, arms@[j].from.node@)));
                    assert(lit_label(*alpha, arms@[j].from.node@) == sym);
                    assert(false);
                }
                assert(map_text(*map, name) == match else_arm {
                    Some(PhonMapElse::Literal(lit)) => lit.node@,
                    _ => name,
                });
            }
            let out = match else_label {
                None => sym,
                Some(l) => l,
            };
            let ghost c0 = covered@;
            let ghost p0 = pairs@;
            let ghost t0 = ptext;
            covered.push(sym);
            pairs.push((sym, out));
            proof {
                ptext = ptext.push(name);
                assert(pair_inputs(pairs@) =~= pair_inputs(p0).push(sym));
                assert forall|j: int| 0 <= j < k + 1 implies #[trigger] covered@.contains(sigma@[j]) by {
                    lemma_contains_push(c0, sym, sigma@[j]);
                }
                assert forall|j: int| 0 <= j < arms@.len() implies alpha.spec_lookup((#[trigger] arms@[j]).from.node@) is Some
                    && covered@.contains(lit_label(*alpha, arms@[j].from.node@)) by {
                    lemma_contains_push(c0, sym, lit_label(*alpha, arms@[j].from.node@));
                }
                assert forall|q: int| 0 <= q < pairs@.len() implies map_pair_of(*alpha, *map, #[trigger] pairs@[q], ptext[q])
                    && (arm_text(arms@, ptext[q]) is Some || alpha.sigma_seq().contains(pairs@[q].0)) by {
                    if q < p0.len() {
                        assert(ptext[q] == t0[q] && pairs@[q] == p0[q]);
                    } else {
                        assert(sigma@[k as int] == sym);
                    }
                }
                assert(covered@.no_duplicates()) by {
                    assert forall|p: int, q: int| 0 <= p < covered@.len() && 0 <= q < covered@.len() && p != q implies covered@[p] != covered@[q] by {
                        if p < c0.len() && q < c0.len() {
                        } else if p < c0.len() {
                            assert(c0.contains(covered@[p]));
                        } else if q < c0.len() {
                            assert(c0.contains(covered@[q]));
                        }
                    }
                }
            }
        }
        k = k + 1;
    }
    let f = step_machine(&pairs);
    proof {
        assert forall|l: Label| alpha.sigma_seq().contains(l) implies #[trigger] pair_inputs(pairs@).contains(l) by {
            let j = choose|j: int| 0 <= j < sigma@.len() && sigma@[j] == l;
            assert(covered@.contains(sigma@[j]));
        }
        assert forall|j: int| 0 <= j < map_arms(*map).len() implies #[trigger] pair_inputs(pairs@).contains(
            lit_label(*alpha, map_arms(*map)[j].from.node@)) by {
            assert(arms@[j] == map_arms(*map)[j]);
        }
        assert(is_map_machine(f, *alpha, *map, pairs@, ptext));
    }
    f
}

/// What a compiled map does to a known symbol `t` that it reads (a Σ
/// member or a symbol some arm reads): exactly one arc reads `t`; where
/// arms read `t`, that arc writes the first such arm's result (the arm's
/// literal, or `t` itself for the map's parameter); where no arm reads
/// `t`, it writes the `else` literal, or `t` itself when there is no
/// `else` or the `else` names the parameter.
pub proof fn law_map_symbol(
    f: Fst,
    alpha: PhonruleAlphabet,
    map: PhonMapDef,
    pairs: Seq<(Label, Label)>,
    texts: Seq<Seq<char>>,
    arms: Vec<PhonMapArm>,
    else_arm: Option<PhonMapElse>,
    t: Seq<char>,
)
    requires
        is_map_machine(f, alpha, map, pairs, texts),
        map.body == (PhonMapBody::Match { arms, else_arm }),
        alpha.names().len() <= u32::MAX,
        alpha.spec_lookup(t) is Some,
        alpha.sigma_seq().contains(lit_label(alpha, t)) || !no_arm_before(arms@, arms@.len() as int, t),
    ensures
        exists|k: int| 0 <= k < pairs.len() && (#[trigger] pairs[k]).0 == lit_label(alpha, t),
        pair_inputs(pairs).no_duplicates(),
        no_arm_before(arms@, arms@.len() as int, t) ==> forall|k: int|
            0 <= k < pairs.len() && (#[trigger] pairs[k]).0 == lit_label(alpha, t) ==> pairs[k].1 == match else_arm {
                Some(PhonMapElse::Literal(lit)) => lit_label(alpha, lit.node@),
                _ => lit_label(alpha, t),
            },
        forall|i: int, k: int|
            #![trigger first_arm_reading(arms@, i, t), pairs[k]]
            first_arm_reading(arms@, i, t) && 0 <= k < pairs.len() && pairs[k].0 == lit_label(alpha, t)
                ==> pairs[k].1 == lit_label(alpha, result_text(arms@[i].to, t)),
{
    assert(map_arms(map) == arms@);
    if alpha.sigma_seq().contains(lit_label(alpha, t)) {
        assert(pair_inputs(pairs).contains(lit_label(alpha, t)));
    } else {
        let j = choose|j: int| 0 <= j < arms@.len() && (#[trigger] arms@[j]).from.node@ == t;
        assert(map_arms(map)[j] == arms@[j]);
        assert(pair_inputs(pairs).contains(lit_label(alpha, map_arms(map)[j].from.node@)));
    }
    let q = choose|q: int| 0 <= q < pair_inputs(pairs).len() && pair_inputs(pairs)[q] == lit_label(alpha, t);
    assert(pairs[q].0 == lit_label(alpha, t));
    lemma_first_index(alpha.names(), t);
    assert forall|k: int| 0 <= k < pairs.len() && (#[trigger] pairs[k]).0 == lit_label(alpha, t) implies texts[k] == t
        && pairs[k].1 == lit_label(alpha, map_text(map, t)) by {
        assert(map_pair_of(alpha, map, pairs[k], texts[k]));
        lemma_first_index(alpha.names(), texts[k]);
    }
    if no_arm_before(arms@, arms@.len() as int, t) {
        lemma_arm_text_some(arms@, t);
    }
    assert forall|i: int, k: int|
        #![trigger first_arm_reading(arms@, i, t), pairs[k]]
        first_arm_reading(arms@, i, t) && 0 <= k < pairs.len() && pairs[k].0 == lit_label(alpha, t)
        implies pairs[k].1 == lit_label(alpha, result_text(arms@[i].to, t)) by {
        lemma_arm_text_first(arms@, i, t);
    }
}

} // verus!
