//! Per-inflection transducers: the slots of a composition, its chain, and
//! the phonrules the chain applies, combined into one machine.
//!
//! ```text
//!   morpheme machines  = one per inflectionless candidate entry
//!   slot machines      = lazy: union of the fitting morphemes' machines
//!                        eager: the ε-acceptor
//!   stem machines      = identity on Σ and the stream markers
//!   T                  = the chain over those, phonrules composed in
//! ```

pub mod chain;
pub mod slot;

use vstd::prelude::*;

use crate::ast::{ComposeBody, Entry, Inflection, InflectionBody, SlotBody, SlotDef, StemReq};
use super::alphabet::PhonruleAlphabet;
use super::lexicon::morpheme_room;
use super::backend::Label;
use super::machine::{accepts, Fst};
use super::minimize::{lemma_minimize_language, minimize};
use super::table::FstTable;
use chain::{build_chain_fst, chain_fault, chain_maps, chain_resolves, slot_or_stem_known, table_known, ChainCompileError};
use slot::{
    build_eager_slot_stub, build_lazy_slot_fst, build_morpheme_fst_cache, build_stem_anchor_stub, cached_entry,
    cached_name, fits, lazy_slot_empty, lazy_slot_missing, slot_union_accepts, SlotCompileError,
};
use super::machine::{identity_pairs, is_loop_machine};
use super::phonrule::brackets::marker_pairs;

verus! {

/// Error compiling an inflection.
#[derive(Debug, Clone, PartialEq, Eq)]
pub enum InflectionCompileError {
    /// The inflection has a rule table, not a composition.
    NotComposeBody { inflection_name: String },
    /// A slot's machine could not be built.
    Slot(SlotCompileError),
    /// The chain's machine could not be built.
    Chain(ChainCompileError),
    /// The FST kernel failed.
    Backend(String),
}

impl InflectionCompileError {
    /// The message shown for this error.
    pub open spec fn msg(&self) -> Seq<char> {
        match self {
            InflectionCompileError::NotComposeBody { inflection_name } => "inflection '"@ + inflection_name@ + "' has a rule-list body; only compose bodies are handled"@,
            InflectionCompileError::Slot(e) => e.msg(),
            InflectionCompileError::Chain(e) => e.msg(),
            InflectionCompileError::Backend(s) => "inflection compile backend error: "@ + s@,
        }
    }

    /// The message shown for this error.
    pub fn message(&self) -> (s: String)
        ensures
            s@ == self.msg(),
    {
        match self {
            InflectionCompileError::NotComposeBody { inflection_name } => {
                let mut out = String::new();
                crate::text::string_push_str(&mut out, "inflection '");
                crate::text::string_push_str(&mut out, inflection_name.as_str());
                crate::text::string_push_str(&mut out, "' has a rule-list body; only compose bodies are handled");
                out
            },
            InflectionCompileError::Slot(e) => e.message(),
            InflectionCompileError::Chain(e) => e.message(),
            InflectionCompileError::Backend(s) => {
                let mut out = String::new();
                crate::text::string_push_str(&mut out, "inflection compile backend error: ");
                crate::text::string_push_str(&mut out, s.as_str());
                out
            },
        }
    }
}

/// Some slot of `slots` is named `n`.
pub open spec fn declared_slot(slots: Seq<SlotDef>, n: Seq<char>) -> bool {
    exists|i: int| 0 <= i < slots.len() && (#[trigger] slots[i]).name.node@ == n
}

/// Some required stem is named `n`.
pub open spec fn required_stem(stems: Seq<StemReq>, n: Seq<char>) -> bool {
    exists|i: int| 0 <= i < stems.len() && (#[trigger] stems[i]).name.node@ == n
}

/// Every entry that fits a lazy slot among the first `k` slots has a
/// morpheme machine (it has no inflection, or an entry of the same name
/// has none).
pub open spec fn lazy_slots_cached_upto(slots: Seq<SlotDef>, morphemes: Seq<&Entry>, k: int) -> bool {
    forall|i: int, j: int|
        0 <= i < k && 0 <= j < morphemes.len() && (#[trigger] slots[i]).body is Lazy && fits(
            *(#[trigger] morphemes[j]),
            slots[i].body->Lazy_0,
        ) ==> cached_name(morphemes, morphemes[j].name.node@)
}

/// The names the chain of a composition may use as slots: the declared
/// slots and the required stems.
pub open spec fn chain_slot_names(slots: Seq<SlotDef>, stems: Seq<StemReq>) -> spec_fn(Seq<char>) -> bool {
    |n: Seq<char>| declared_slot(slots, n) || required_stem(stems, n)
}

/// `slot_t` and `stem_t` hold a machine for exactly the declared slots
/// and the required stems, and `f` maps what the chain of `c` maps over
/// them.
pub open spec fn maps_chain_with(
    f: Fst,
    c: ComposeBody,
    stems: Seq<StemReq>,
    phonrule_fsts: FstTable,
    slot_t: FstTable,
    stem_t: FstTable,
) -> bool {
    &&& forall|n: Seq<char>| #[trigger] slot_t.spec_get(n) is Some <==> declared_slot(c.slots@, n)
    &&& forall|n: Seq<char>| #[trigger] stem_t.spec_get(n) is Some <==> required_stem(stems, n)
    &&& forall|x: Seq<Label>, y: Seq<Label>|
        #[trigger] accepts(f, x, y) <==> chain_maps(c.chain, slot_t, stem_t, phonrule_fsts, x, y)
}

/// `cache` holds, under the name of each entry without an inflection, the
/// machine of the last such entry of that name, and nothing else.
pub open spec fn morpheme_cache_of(cache: FstTable, morphemes: Seq<&Entry>, alpha: PhonruleAlphabet) -> bool {
    &&& forall|n: Seq<char>| #[trigger] cache.spec_get(n) is Some <==> cached_name(morphemes, n)
    &&& forall|n: Seq<char>| #[trigger] cache.spec_get(n) is Some ==> cached_entry(cache.spec_get(n)->0, morphemes, n, alpha)
}

/// `f` is the machine of slot `d`: for a lazy slot the union of the cached
/// machines of the entries that fit it (the empty string when none fits);
/// for an eager slot the empty string.
pub open spec fn slot_machine_of(f: Fst, d: SlotDef, morphemes: Seq<&Entry>, cache: FstTable) -> bool {
    match d.body {
        SlotBody::Lazy(m) => if lazy_slot_empty(m, morphemes) {
            is_loop_machine(f, Seq::empty())
        } else {
            forall|x: Seq<Label>, y: Seq<Label>| #[trigger] accepts(f, x, y) <==> slot_union_accepts(m, morphemes, cache, x, y)
        },
        SlotBody::Eager(_) => is_loop_machine(f, Seq::empty()),
    }
}

/// Each name in `t` holds the machine of the last of the first `k` slot
/// definitions with that name.
pub open spec fn slots_built_upto(t: FstTable, slots: Seq<SlotDef>, k: int, morphemes: Seq<&Entry>, cache: FstTable) -> bool {
    forall|n: Seq<char>| #[trigger] t.spec_get(n) is Some ==> exists|i: int|
        #[trigger] last_slot_def(slots, k, i, n) && slot_machine_of(t.spec_get(n)->0, slots[i], morphemes, cache)
}

/// Slot definition `i` is the last of the first `k` named `n`.
pub open spec fn last_slot_def(slots: Seq<SlotDef>, k: int, i: int, n: Seq<char>) -> bool {
    &&& 0 <= i < k
    &&& slots[i].name.node@ == n
    &&& forall|j: int| i < j < k ==> (#[trigger] slots[j]).name.node@ != n
}

/// `f` maps what the chain of `c` maps over the slot machines built from
/// the morphemes (their cached machines in `alpha`) and over stems that
/// admit any word of Σ and the stream markers.
pub open spec fn maps_chain_over_slots(
    f: Fst,
    c: ComposeBody,
    stems: Seq<StemReq>,
    phonrule_fsts: FstTable,
    morphemes: Seq<&Entry>,
    alpha: PhonruleAlphabet,
) -> bool {
    exists|cache: FstTable, slot_t: FstTable, stem_t: FstTable|
        #![trigger maps_chain_with(f, c, stems, phonrule_fsts, slot_t, stem_t), morpheme_cache_of(cache, morphemes, alpha)]
        {
            &&& morpheme_cache_of(cache, morphemes, alpha)
            &&& slots_built_upto(slot_t, c.slots@, c.slots@.len() as int, morphemes, cache)
            &&& forall|n: Seq<char>| #[trigger] stem_t.spec_get(n) is Some ==> is_loop_machine(
                stem_t.spec_get(n)->0,
                identity_pairs(alpha.sigma_seq()) + marker_pairs(),
            )
            &&& maps_chain_with(f, c, stems, phonrule_fsts, slot_t, stem_t)
        }
}

/// Recording slot `k`'s machine under its name keeps the earlier names'
/// machines and makes slot `k` the last definition of its name.
proof fn lemma_slots_step(
    t0: FstTable,
    t1: FstTable,
    slots: Seq<SlotDef>,
    k: int,
    morphemes: Seq<&Entry>,
    cache: FstTable,
    f: Fst,
)
    requires
        0 <= k < slots.len(),
        slots_built_upto(t0, slots, k, morphemes, cache),
        slot_machine_of(f, slots[k], morphemes, cache),
        t1.spec_get(slots[k].name.node@) == Some(f),
        forall|n: Seq<char>| n != slots[k].name.node@ ==> #[trigger] t1.spec_get(n) == t0.spec_get(n),
    ensures
        slots_built_upto(t1, slots, k + 1, morphemes, cache),
{
    assert forall|n: Seq<char>| #[trigger] t1.spec_get(n) is Some implies exists|i: int|
        #[trigger] last_slot_def(slots, k + 1, i, n) && slot_machine_of(t1.spec_get(n)->0, slots[i], morphemes, cache) by {
        if n == slots[k].name.node@ {
            assert(last_slot_def(slots, k + 1, k, n));
        } else {
            assert(t0.spec_get(n) is Some);
            let i = choose|i: int|
                #[trigger] last_slot_def(slots, k, i, n) && slot_machine_of(t0.spec_get(n)->0, slots[i], morphemes, cache);
            assert(last_slot_def(slots, k + 1, i, n));
        }
    }
}

/// Which error a composition fails with: `Slot` when some entry that fits
/// a lazy slot has no morpheme machine, else `Chain`.
pub open spec fn compose_error_kind(c: ComposeBody, morphemes: Seq<&Entry>, e: InflectionCompileError) -> bool {
    if lazy_slots_cached_upto(c.slots@, morphemes, c.slots@.len() as int) {
        e is Chain
    } else {
        e is Slot
    }
}

/// Compile an inflection with a composition body into one machine.
///
/// `all_morphemes` are the candidate entries lazy slots choose from;
/// `phonrule_fsts` holds the machine of each phonrule the chain applies,
/// compiled over the same alphabet. Fails with `NotComposeBody` for a
/// rule table; otherwise succeeds exactly when every entry that fits a
/// lazy slot has a morpheme machine and the chain resolves against the
/// declared slots, the required stems and `phonrule_fsts`. The chain's
/// machine is minimised.
pub fn compile_inflection_fst(
    inflection: &Inflection,
    all_morphemes: &[&Entry],
    phonrule_fsts: &FstTable,
    alpha: &mut PhonruleAlphabet,
) -> (r: Result<Fst, InflectionCompileError>)
    requires
        old(alpha).wf(),
        morpheme_room(*old(alpha), all_morphemes@.len() as int),
        phonrule_fsts.wf(),
    ensures
        final(alpha).wf(),
        r matches Ok(f) ==> f.wf(),
        inflection.body is Rules ==> r == Err::<Fst, InflectionCompileError>(
            InflectionCompileError::NotComposeBody { inflection_name: inflection.name.node },
        ),
        inflection.body matches InflectionBody::Compose(c) ==> (r is Ok <==> (lazy_slots_cached_upto(
            c.slots@,
            all_morphemes@,
            c.slots@.len() as int,
        ) && chain_resolves(
            c.chain,
            chain_slot_names(c.slots@, inflection.required_stems@),
            table_known(*phonrule_fsts),
        ))),
        inflection.body matches InflectionBody::Compose(c) ==> (r matches Err(e) ==> compose_error_kind(c, all_morphemes@, e)),
        inflection.body matches InflectionBody::Compose(c) ==> (r matches Err(InflectionCompileError::Chain(e)) ==> chain_fault(
            c.chain,
            chain_slot_names(c.slots@, inflection.required_stems@),
            table_known(*phonrule_fsts),
            e,
        )),
        inflection.body matches InflectionBody::Compose(c) ==> (r matches Ok(f) ==> maps_chain_over_slots(
            f,
            c,
            inflection.required_stems@,
            *phonrule_fsts,
            all_morphemes@,
            *final(alpha),
        )),
{
    let compose = match &inflection.body {
        InflectionBody::Compose(c) => c,
        InflectionBody::Rules(_) => {
            return Err(InflectionCompileError::NotComposeBody { inflection_name: inflection.name.node.clone() });
        },
    };
    let morpheme_fsts = match build_morpheme_fst_cache(all_morphemes, alpha) {
        Ok(t) => t,
        Err(e) => {
            return Err(InflectionCompileError::Slot(e));
        },
    };
    let mut slot_fsts = FstTable::new();
    let mut i: usize = 0;
    while i < compose.slots.len()
        invariant
            i <= compose.slots@.len(),
            inflection.body == InflectionBody::Compose(*compose),
            alpha.wf(),
            morpheme_fsts.wf(),
            forall|n: Seq<char>| #[trigger] morpheme_fsts.spec_get(n) is Some <==> cached_name(all_morphemes@, n),
            slot_fsts.wf(),
            forall|n: Seq<char>| #[trigger] slot_fsts.spec_get(n) is Some <==> declared_slot(compose.slots@.take(i as int), n),
            lazy_slots_cached_upto(compose.slots@, all_morphemes@, i as int),
            morpheme_cache_of(morpheme_fsts, all_morphemes@, *alpha),
            slots_built_upto(slot_fsts, compose.slots@, i as int, all_morphemes@, morpheme_fsts),
        decreases compose.slots@.len() - i,
    {
        let slot_def = &compose.slots[i];
        let ghost pre = compose.slots@.take(i as int);
        proof {
            assert(compose.slots@.take(i + 1) =~= pre.push(*slot_def));
        }
        let fst = match &slot_def.body {
            SlotBody::Lazy(matching) => match build_lazy_slot_fst(slot_def, matching, all_morphemes, &morpheme_fsts) {
                Ok(f) => {
                    proof {
                        assert forall|a: int, j: int|
                            0 <= a < i + 1 && 0 <= j < all_morphemes@.len() && (#[trigger] compose.slots@[a]).body is Lazy
                                && fits(*(#[trigger] all_morphemes@[j]), compose.slots@[a].body->Lazy_0) implies cached_name(
                            all_morphemes@,
                            all_morphemes@[j].name.node@,
                        ) by {
                            if a == i {
                                assert(!lazy_slot_missing(*matching, all_morphemes@, morpheme_fsts));
                                assert(morpheme_fsts.spec_get(all_morphemes@[j].name.node@) is Some);
                            }
                        }
                    }
                    f
                },
                Err(e) => {
                    proof {
                        let j = choose|j: int|
                            0 <= j < all_morphemes@.len() && fits(*(#[trigger] all_morphemes@[j]), *matching)
                                && morpheme_fsts.spec_get(all_morphemes@[j].name.node@) is None;
                        assert(!cached_name(all_morphemes@, all_morphemes@[j].name.node@));
                        assert(compose.slots@[i as int].body is Lazy);
                    }
                    return Err(InflectionCompileError::Slot(e));
                },
            },
            SlotBody::Eager(_) => {
                let stub = build_eager_slot_stub(slot_def, alpha);
                match stub {
                    Ok(f) => f,
                    Err(e) => {
                        return Err(InflectionCompileError::Slot(e));
                    },
                }
            },
        };
        proof {
            assert(compose.slots@[i as int] == *slot_def);
            assert(slot_machine_of(fst, *slot_def, all_morphemes@, morpheme_fsts));
        }
        let ghost t0 = slot_fsts;
        slot_fsts.insert(slot_def.name.node.clone(), fst);
        proof {
            lemma_slots_step(t0, slot_fsts, compose.slots@, i as int, all_morphemes@, morpheme_fsts, fst);
        }
        proof {
            let s = compose.slots@.take(i + 1);
            assert forall|n: Seq<char>| #[trigger] slot_fsts.spec_get(n) is Some <==> declared_slot(s, n) by {
                if declared_slot(pre, n) {
                    let k = choose|k: int| 0 <= k < pre.len() && (#[trigger] pre[k]).name.node@ == n;
                    assert(s[k] == pre[k]);
                }
                if n == slot_def.name.node@ {
                    assert(s[i as int] == *slot_def);
                }
                if declared_slot(s, n) {
                    let k = choose|k: int| 0 <= k < s.len() && (#[trigger] s[k]).name.node@ == n;
                    if k < i {
                        assert(pre[k] == s[k]);
                    }
                }
            }
        }
        i = i + 1;
    }
    proof {
        assert(compose.slots@.take(compose.slots@.len() as int) =~= compose.slots@);
    }
    let mut stem_fsts = FstTable::new();
    let mut i: usize = 0;
    while i < inflection.required_stems.len()
        invariant
            i <= inflection.required_stems@.len(),
            inflection.body == InflectionBody::Compose(*compose),
            alpha.wf(),
            stem_fsts.wf(),
            forall|n: Seq<char>| #[trigger] stem_fsts.spec_get(n) is Some <==> required_stem(inflection.required_stems@.take(i as int), n),
            forall|n: Seq<char>| #[trigger] stem_fsts.spec_get(n) is Some ==> is_loop_machine(
                stem_fsts.spec_get(n)->0,
                identity_pairs(alpha.sigma_seq()) + marker_pairs(),
            ),
            morpheme_cache_of(morpheme_fsts, all_morphemes@, *alpha),
            slots_built_upto(slot_fsts, compose.slots@, compose.slots@.len() as int, all_morphemes@, morpheme_fsts),
        decreases inflection.required_stems@.len() - i,
    {
        let req = &inflection.required_stems[i];
        let ghost pre = inflection.required_stems@.take(i as int);
        proof {
            assert(inflection.required_stems@.take(i + 1) =~= pre.push(*req));
        }
        let stub = build_stem_anchor_stub(req.name.node.as_str(), alpha);
        let f = match stub {
            Ok(f) => f,
            Err(e) => {
                return Err(InflectionCompileError::Slot(e));
            },
        };
        stem_fsts.insert(req.name.node.clone(), f);
        proof {
            let s = inflection.required_stems@.take(i + 1);
            assert forall|n: Seq<char>| #[trigger] stem_fsts.spec_get(n) is Some <==> required_stem(s, n) by {
                if required_stem(pre, n) {
                    let k = choose|k: int| 0 <= k < pre.len() && (#[trigger] pre[k]).name.node@ == n;
                    assert(s[k] == pre[k]);
                }
                if n == req.name.node@ {
                    assert(s[i as int] == *req);
                }
                if required_stem(s, n) {
                    let k = choose|k: int| 0 <= k < s.len() && (#[trigger] s[k]).name.node@ == n;
                    if k < i {
                        assert(pre[k] == s[k]);
                    }
                }
            }
        }
        i = i + 1;
    }
    proof {
        assert(inflection.required_stems@.take(inflection.required_stems@.len() as int) =~= inflection.required_stems@);
        assert(slot_or_stem_known(slot_fsts, stem_fsts) =~= chain_slot_names(compose.slots@, inflection.required_stems@));
    }
    match build_chain_fst(&compose.chain, &slot_fsts, &stem_fsts, phonrule_fsts) {
        Ok(f) => {
            let m = minimize(&f);
            proof {
                assert forall|x: Seq<Label>, y: Seq<Label>|
                    #[trigger] accepts(m, x, y) <==> chain_maps(compose.chain, slot_fsts, stem_fsts, *phonrule_fsts, x, y) by {
                    lemma_minimize_language(m, f, x, y);
                }
                assert(maps_chain_with(m, *compose, inflection.required_stems@, *phonrule_fsts, slot_fsts, stem_fsts));
                assert(morpheme_cache_of(morpheme_fsts, all_morphemes@, *alpha));
            }
            Ok(m)
        },
        Err(e) => Err(InflectionCompileError::Chain(e)),
    }
}

} // verus!
