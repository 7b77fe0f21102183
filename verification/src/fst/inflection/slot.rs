//! The machines of the slots of a composition.
//!
//! * A lazy slot (`slot NAME matching <filter>`) is filled by the morpheme
//!   entries its filter selects: the union of their morpheme machines, or
//!   the ε-acceptor when none is selected.
//! * An eager slot (`slot NAME { rules }`) is filled by per-cell rules,
//!   which this layer does not compile: it contributes the ε-acceptor.
//! * A stem named by the chain but not declared as a slot is per-entry
//!   data bound later: it is the identity on Σ and the stream markers.

use vstd::prelude::*;

use crate::ast::{AxisConstraint, Entry, LazyMatching, SlotDef, TagCondition};
use crate::text::{str_eq, str_to_owned, string_push_str};
use super::super::alphabet::PhonruleAlphabet;
use super::super::lexicon::{
    compile_morpheme, entry_known, lemma_morpheme_chain_language, lemma_pair_stable, morpheme_pair, morpheme_room,
    LexiconCompileError,
};
use super::super::backend::Label;
use super::super::laws::{lemma_same_shape_accepts, lemma_union_language};
use super::super::machine::{accepts, epsilon_machine, identity_pairs, is_loop_machine, union, Fst};
use super::super::phonrule::brackets::marker_pairs;
use super::super::phonrule::rule_seq::build_identity_over_sigma;
use super::super::table::FstTable;

verus! {

/// Error building a slot's machine.
#[derive(Debug, Clone, PartialEq, Eq)]
pub enum SlotCompileError {
    /// A lazy slot selected no morpheme.
    EmptyLazySlot { slot_name: String },
    /// A morpheme entry did not compile.
    Lexicon(LexiconCompileError),
    /// A selected morpheme has no machine in the cache.
    Backend(String),
}

impl SlotCompileError {
    /// The message shown for this error.
    pub open spec fn msg(&self) -> Seq<char> {
        match self {
            SlotCompileError::EmptyLazySlot { slot_name } => "lazy slot '"@ + slot_name@ + "' has no morphemes matching its filter"@,
            SlotCompileError::Lexicon(e) => e.msg(),
            SlotCompileError::Backend(s) => "slot compile backend error: "@ + s@,
        }
    }

    /// The message shown for this error.
    pub fn message(&self) -> (s: String)
        ensures
            s@ == self.msg(),
    {
        match self {
            SlotCompileError::EmptyLazySlot { slot_name } => {
                let mut out = String::new();
                crate::text::string_push_str(&mut out, "lazy slot '");
                crate::text::string_push_str(&mut out, slot_name.as_str());
                crate::text::string_push_str(&mut out, "' has no morphemes matching its filter");
                out
            },
            SlotCompileError::Lexicon(e) => e.message(),
            SlotCompileError::Backend(s) => {
                let mut out = String::new();
                crate::text::string_push_str(&mut out, "slot compile backend error: ");
                crate::text::string_push_str(&mut out, s.as_str());
                out
            },
        }
    }
}

/// Some tag of `tags` is on `axis`.
pub open spec fn axis_present(tags: Seq<TagCondition>, axis: Seq<char>) -> bool {
    exists|i: int| 0 <= i < tags.len() && (#[trigger] tags[i]).axis.node@ == axis
}

/// The entry may fill a lazy slot with this filter: a catch-all slot takes
/// every entry; a filter takes the entries that carry a tag on each
/// filtered axis.
pub open spec fn fits(entry: Entry, matching: LazyMatching) -> bool {
    match matching {
        LazyMatching::CatchAll => true,
        LazyMatching::Filter(filters) => forall|k: int|
            0 <= k < filters@.len() ==> match (#[trigger] filters@[k]).constraint {
                AxisConstraint::Any => axis_present(entry.tags@, filters@[k].axis.node@),
            },
    }
}

/// Whether some tag is on `axis`.
fn tags_have_axis(tags: &Vec<TagCondition>, axis: &str) -> (b: bool)
    ensures
        b == axis_present(tags@, axis@),
{
    let mut i: usize = 0;
    while i < tags.len()
        invariant
            i <= tags@.len(),
            forall|j: int| 0 <= j < i ==> tags@[j].axis.node@ != axis@,
        decreases tags@.len() - i,
    {
        if str_eq(tags[i].axis.node.as_str(), axis) {
            return true;
        }
        i = i + 1;
    }
    false
}

/// Whether the entry may fill a lazy slot with this filter.
pub fn entry_fits(entry: &Entry, matching: &LazyMatching) -> (b: bool)
    ensures
        b == fits(*entry, *matching),
{
    match matching {
        LazyMatching::CatchAll => true,
        LazyMatching::Filter(filters) => {
            let mut k: usize = 0;
            while k < filters.len()
                invariant
                    k <= filters@.len(),
                    *matching == LazyMatching::Filter(*filters),
                    forall|j: int|
                        0 <= j < k ==> match (#[trigger] filters@[j]).constraint {
                            AxisConstraint::Any => axis_present(entry.tags@, filters@[j].axis.node@),
                        },
                decreases filters@.len() - k,
            {
                match filters[k].constraint {
                    AxisConstraint::Any => {
                        if !tags_have_axis(&entry.tags, filters[k].axis.node.as_str()) {
                            return false;
                        }
                    },
                }
                k = k + 1;
            }
            true
        },
    }
}

/// Some entry named `name` has no inflection (so the cache holds it).
pub open spec fn cached_name(morphemes: Seq<&Entry>, name: Seq<char>) -> bool {
    exists|j: int| 0 <= j < morphemes.len() && (#[trigger] morphemes[j]).inflection is None && morphemes[j].name.node@ == name
}

/// `f` maps exactly the entry's id label to the labels of its surface.
pub open spec fn morpheme_machine(f: Fst, alpha: PhonruleAlphabet, e: Entry) -> bool {
    forall|x: Seq<Label>, y: Seq<Label>| #[trigger] accepts(f, x, y) <==> (x, y) == morpheme_pair(alpha, e)
}

/// Entry `j` is the last entry named `n` without an inflection.
pub open spec fn last_plain_entry(morphemes: Seq<&Entry>, j: int, n: Seq<char>) -> bool {
    &&& 0 <= j < morphemes.len()
    &&& morphemes[j].inflection is None
    &&& morphemes[j].name.node@ == n
    &&& forall|k: int| j < k < morphemes.len() && (#[trigger] morphemes[k]).name.node@ == n ==> morphemes[k].inflection is Some
}

/// `f` is the machine of the last entry named `n` without an inflection.
pub open spec fn cached_entry(f: Fst, morphemes: Seq<&Entry>, n: Seq<char>, alpha: PhonruleAlphabet) -> bool {
    exists|j: int|
        #[trigger] last_plain_entry(morphemes, j, n) && entry_known(alpha, *morphemes[j]) && morpheme_machine(f, alpha, *morphemes[j])
}

/// An entry with an inflection leaves the cache's entries as they were.
proof fn lemma_cache_skip(cache: FstTable, pre: Seq<&Entry>, e: &Entry, alpha: PhonruleAlphabet)
    requires
        e.inflection is Some,
        forall|n: Seq<char>| #[trigger] cache.spec_get(n) is Some ==> cached_entry(cache.spec_get(n)->0, pre, n, alpha),
    ensures
        forall|n: Seq<char>| #[trigger] cache.spec_get(n) is Some ==> cached_entry(cache.spec_get(n)->0, pre.push(e), n, alpha),
{
    let s = pre.push(e);
    assert forall|n: Seq<char>| #[trigger] cache.spec_get(n) is Some implies cached_entry(cache.spec_get(n)->0, s, n, alpha) by {
        let j = choose|j: int|
            #[trigger] last_plain_entry(pre, j, n) && entry_known(alpha, *pre[j]) && morpheme_machine(cache.spec_get(n)->0, alpha, *pre[j]);
        assert(s[j] == pre[j]);
        assert forall|k: int| j < k < s.len() && (#[trigger] s[k]).name.node@ == n implies s[k].inflection is Some by {
            if k < pre.len() {
                assert(s[k] == pre[k]);
            }
        }
        assert(last_plain_entry(s, j, n));
    }
}

/// Caching an entry's machine under its name keeps the other entries
/// (their pairs unchanged as the alphabet grows) and makes the new entry
/// the last one of its name.
proof fn lemma_cache_step(
    c0: FstTable,
    c1: FstTable,
    pre: Seq<&Entry>,
    e: &Entry,
    a0: PhonruleAlphabet,
    a1: PhonruleAlphabet,
    f: Fst,
)
    requires
        e.inflection is None,
        forall|n: Seq<char>| #[trigger] c0.spec_get(n) is Some ==> cached_entry(c0.spec_get(n)->0, pre, n, a0),
        c1.spec_get(e.name.node@) == Some(f),
        forall|n: Seq<char>| n != e.name.node@ ==> #[trigger] c1.spec_get(n) == c0.spec_get(n),
        forall|n: Seq<char>| #[trigger] a0.spec_lookup(n) is Some ==> a1.spec_lookup(n) == a0.spec_lookup(n),
        a0.morpheme_names().len() <= a1.morpheme_names().len(),
        forall|i: int| 0 <= i < a0.morpheme_names().len() ==> #[trigger] a1.morpheme_names()[i] == a0.morpheme_names()[i],
        entry_known(a1, *e),
        forall|x: Seq<Label>, y: Seq<Label>| #[trigger] accepts(f, x, y) <==> (x, y) == morpheme_pair(a1, *e),
    ensures
        forall|n: Seq<char>| #[trigger] c1.spec_get(n) is Some ==> cached_entry(c1.spec_get(n)->0, pre.push(e), n, a1),
{
    let s = pre.push(e);
    assert forall|n: Seq<char>| #[trigger] c1.spec_get(n) is Some implies cached_entry(c1.spec_get(n)->0, s, n, a1) by {
        if n == e.name.node@ {
            let j = pre.len() as int;
            assert(s[j] == e);
            assert(morpheme_machine(f, a1, *e));
            assert(last_plain_entry(s, j, n));
        } else {
            assert(c0.spec_get(n) is Some);
            let g = c0.spec_get(n)->0;
            let j = choose|j: int|
                #[trigger] last_plain_entry(pre, j, n) && entry_known(a0, *pre[j]) && morpheme_machine(g, a0, *pre[j]);
            lemma_pair_stable(a0, a1, *pre[j]);
            assert(s[j] == pre[j]);
            assert forall|k: int| j < k < s.len() && (#[trigger] s[k]).name.node@ == n implies s[k].inflection is Some by {
                if k < pre.len() {
                    assert(s[k] == pre[k]);
                }
            }
            assert(morpheme_machine(g, a1, *pre[j]));
            assert(last_plain_entry(s, j, n));
        }
    }
}

/// The morpheme machine of every entry without an inflection, under the
/// entry's name (a later entry of the same name replaces an earlier one).
/// Entries with an inflection are skipped.
pub fn build_morpheme_fst_cache(morphemes: &[&Entry], alpha: &mut PhonruleAlphabet) -> (r: Result<FstTable, SlotCompileError>)
    requires
        old(alpha).wf(),
        morpheme_room(*old(alpha), morphemes@.len() as int),
    ensures
        final(alpha).wf(),
        r is Ok,
        r matches Ok(t) ==> t.wf() && forall|n: Seq<char>| #[trigger] t.spec_get(n) is Some <==> cached_name(morphemes@, n),
        r matches Ok(t) ==> forall|n: Seq<char>| #[trigger] t.spec_get(n) is Some ==> cached_entry(t.spec_get(n)->0, morphemes@, n, *final(alpha)),
{
    let mut cache = FstTable::new();
    let mut i: usize = 0;
    while i < morphemes.len()
        invariant
            i <= morphemes@.len(),
            alpha.wf(),
            morpheme_room(*alpha, morphemes@.len() - i),
            cache.wf(),
            forall|n: Seq<char>| #[trigger] cache.spec_get(n) is Some <==> cached_name(morphemes@.take(i as int), n),
            forall|n: Seq<char>| #[trigger] cache.spec_get(n) is Some ==> cached_entry(cache.spec_get(n)->0, morphemes@.take(i as int), n, *alpha),
        decreases morphemes@.len() - i,
    {
        let entry = morphemes[i];
        let ghost pre = morphemes@.take(i as int);
        proof {
            assert(morphemes@.take(i + 1) =~= pre.push(entry));
        }
        if entry.inflection.is_none() {
            let ghost a0 = *alpha;
            let ghost c0 = cache;
            match compile_morpheme(entry, alpha) {
                Ok((_l, f)) => {
                    cache.insert(entry.name.node.clone(), f);
                    proof {
                        lemma_morpheme_chain_language(*alpha, *entry, _l, f);
                        lemma_cache_step(c0, cache, pre, entry, a0, *alpha, f);
                    }
                },
                Err(_) => {},
            }
            proof {
                assert forall|n: Seq<char>| #[trigger] cache.spec_get(n) is Some <==> cached_name(morphemes@.take(i + 1), n) by {
                    let s = morphemes@.take(i + 1);
                    if cached_name(pre, n) {
                        let j = choose|j: int| 0 <= j < pre.len() && (#[trigger] pre[j]).inflection is None && pre[j].name.node@ == n;
                        assert(s[j] == pre[j]);
                    }
                    if n == entry.name.node@ {
                        assert(s[i as int] == entry);
                    }
                    if cached_name(s, n) {
                        let j = choose|j: int| 0 <= j < s.len() && (#[trigger] s[j]).inflection is None && s[j].name.node@ == n;
                        if j < i {
                            assert(pre[j] == s[j]);
                        }
                    }
                }
            }
        } else {
            proof {
                lemma_cache_skip(cache, pre, entry, *alpha);
                assert forall|n: Seq<char>| #[trigger] cache.spec_get(n) is Some <==> cached_name(morphemes@.take(i + 1), n) by {
                    let s = morphemes@.take(i + 1);
                    if cached_name(pre, n) {
                        let j = choose|j: int| 0 <= j < pre.len() && (#[trigger] pre[j]).inflection is None && pre[j].name.node@ == n;
                        assert(s[j] == pre[j]);
                    }
                    if cached_name(s, n) {
                        let j = choose|j: int| 0 <= j < s.len() && (#[trigger] s[j]).inflection is None && s[j].name.node@ == n;
                        if j < i {
                            assert(pre[j] == s[j]);
                        }
                    }
                }
            }
        }
        i = i + 1;
    }
    proof {
        assert(morphemes@.take(morphemes@.len() as int) =~= morphemes@);
    }
    Ok(cache)
}

/// Some entry of `morphemes` fits the filter but has no machine in the
/// cache.
pub open spec fn lazy_slot_missing(matching: LazyMatching, morphemes: Seq<&Entry>, cache: FstTable) -> bool {
    exists|j: int|
        0 <= j < morphemes.len() && fits(*(#[trigger] morphemes[j]), matching) && cache.spec_get(morphemes[j].name.node@) is None
}

/// No entry of `morphemes` fits the filter.
pub open spec fn lazy_slot_empty(matching: LazyMatching, morphemes: Seq<&Entry>) -> bool {
    forall|j: int| 0 <= j < morphemes.len() ==> !fits(*(#[trigger] morphemes[j]), matching)
}

/// `x:y` is accepted by the cached machine of some entry that fits the
/// filter.
pub open spec fn slot_union_accepts(
    matching: LazyMatching,
    morphemes: Seq<&Entry>,
    cache: FstTable,
    x: Seq<Label>,
    y: Seq<Label>,
) -> bool {
    exists|j: int|
        0 <= j < morphemes.len() && fits(*morphemes[j], matching) && #[trigger] accepts(
            cache.spec_get(morphemes[j].name.node@)->0,
            x,
            y,
        )
}

/// The machine of a lazy slot: the union, in entry order, of the cached
/// machines of the entries that fit the filter; the ε-acceptor when no
/// entry fits.
///
/// Fails with `Backend` when a fitting entry has no machine in the cache.
pub fn build_lazy_slot_fst(
    slot_def: &SlotDef,
    matching: &LazyMatching,
    all_morphemes: &[&Entry],
    morpheme_fsts: &FstTable,
) -> (r: Result<Fst, SlotCompileError>)
    requires
        morpheme_fsts.wf(),
    ensures
        r is Err <==> lazy_slot_missing(*matching, all_morphemes@, *morpheme_fsts),
        r matches Err(e) ==> e is Backend,
        r matches Ok(f) ==> f.wf(),
        lazy_slot_empty(*matching, all_morphemes@) ==> (r matches Ok(f) && is_loop_machine(f, Seq::empty())),
        !lazy_slot_empty(*matching, all_morphemes@) ==> (r matches Ok(f) ==> forall|x: Seq<Label>, y: Seq<Label>|
            #[trigger] accepts(f, x, y) <==> slot_union_accepts(*matching, all_morphemes@, *morpheme_fsts, x, y)),
{
    let mut acc: Option<Fst> = None;
    let mut i: usize = 0;
    while i < all_morphemes.len()
        invariant
            i <= all_morphemes@.len(),
            morpheme_fsts.wf(),
            acc matches Some(f) ==> f.wf(),
            acc is None <==> lazy_slot_empty(*matching, all_morphemes@.take(i as int)),
            !lazy_slot_missing(*matching, all_morphemes@.take(i as int), *morpheme_fsts),
            acc matches Some(f) ==> forall|x: Seq<Label>, y: Seq<Label>|
                #[trigger] accepts(f, x, y) <==> slot_union_accepts(*matching, all_morphemes@.take(i as int), *morpheme_fsts, x, y),
        decreases all_morphemes@.len() - i,
    {
        let entry = all_morphemes[i];
        let ghost pre = all_morphemes@.take(i as int);
        let ghost s = all_morphemes@.take(i + 1);
        proof {
            assert(s =~= pre.push(entry));
        }
        if entry_fits(entry, matching) {
            let sub = match morpheme_fsts.get(entry.name.node.as_str()) {
                Some(f) => f,
                None => {
                    let mut msg = str_to_owned("lazy slot '");
                    string_push_str(&mut msg, slot_def.name.node.as_str());
                    string_push_str(&mut msg, "': morpheme '");
                    string_push_str(&mut msg, entry.name.node.as_str());
                    string_push_str(&mut msg, "' not in cache");
                    proof {
                        assert(fits(*all_morphemes@[i as int], *matching));
                    }
                    return Err(SlotCompileError::Backend(msg));
                },
            };
            proof {
                morpheme_fsts.lemma_get_wf(entry.name.node@);
            }
            let ghost acc0 = acc;
            acc = Some(
                match acc {
                    None => super::super::machine::copy_fst(sub),
                    Some(a) => union(&a, sub),
                },
            );
            proof {
                let nf = acc->0;
                assert forall|x: Seq<Label>, y: Seq<Label>|
                    #[trigger] accepts(nf, x, y) <==> slot_union_accepts(*matching, s, *morpheme_fsts, x, y) by {
                    assert(s[i as int] == entry);
                    match acc0 {
                        None => {
                            lemma_same_shape_accepts(nf, *sub, x, y);
                            if slot_union_accepts(*matching, s, *morpheme_fsts, x, y) {
                                let j = choose|j: int| 0 <= j < s.len() && fits(*s[j], *matching) && #[trigger] accepts(
                                    morpheme_fsts.spec_get(s[j].name.node@)->0, x, y);
                                if j < i {
                                    assert(pre[j] == s[j]);
                                    assert(!fits(*pre[j], *matching));
                                }
                            }
                        },
                        Some(a) => {
                            lemma_union_language(a, *sub, nf, x, y);
                            if slot_union_accepts(*matching, pre, *morpheme_fsts, x, y) {
                                let j = choose|j: int| 0 <= j < pre.len() && fits(*pre[j], *matching) && #[trigger] accepts(
                                    morpheme_fsts.spec_get(pre[j].name.node@)->0, x, y);
                                assert(pre[j] == s[j]);
                            }
                            if slot_union_accepts(*matching, s, *morpheme_fsts, x, y) {
                                let j = choose|j: int| 0 <= j < s.len() && fits(*s[j], *matching) && #[trigger] accepts(
                                    morpheme_fsts.spec_get(s[j].name.node@)->0, x, y);
                                if j < i {
                                    assert(pre[j] == s[j]);
                                }
                            }
                        },
                    }
                }
                assert(!lazy_slot_empty(*matching, s)) by {
                    assert(fits(*s[i as int], *matching));
                }
                assert(!lazy_slot_missing(*matching, s, *morpheme_fsts)) by {
                    if lazy_slot_missing(*matching, s, *morpheme_fsts) {
                        let j = choose|j: int|
                            0 <= j < s.len() && fits(*(#[trigger] s[j]), *matching) && morpheme_fsts.spec_get(s[j].name.node@) is None;
                        if j < i {
                            assert(pre[j] == s[j]);
                        }
                    }
                }
            }
        } else {
            proof {
                assert(lazy_slot_empty(*matching, s) <==> lazy_slot_empty(*matching, pre)) by {
                    if lazy_slot_empty(*matching, pre) {
                        assert forall|j: int| 0 <= j < s.len() implies !fits(*(#[trigger] s[j]), *matching) by {
                            if j < i {
                                assert(pre[j] == s[j]);
                            }
                        }
                    }
                    if lazy_slot_empty(*matching, s) {
                        assert forall|j: int| 0 <= j < pre.len() implies !fits(*(#[trigger] pre[j]), *matching) by {
                            assert(pre[j] == s[j]);
                        }
                    }
                }
                assert(!lazy_slot_missing(*matching, s, *morpheme_fsts)) by {
                    if lazy_slot_missing(*matching, s, *morpheme_fsts) {
                        let j = choose|j: int|
                            0 <= j < s.len() && fits(*(#[trigger] s[j]), *matching) && morpheme_fsts.spec_get(s[j].name.node@) is None;
                        if j < i {
                            assert(pre[j] == s[j]);
                        }
                    }
                }
                if acc is Some {
                    let f = acc->0;
                    assert forall|x: Seq<Label>, y: Seq<Label>|
                        #[trigger] accepts(f, x, y) <==> slot_union_accepts(*matching, s, *morpheme_fsts, x, y) by {
                        if slot_union_accepts(*matching, s, *morpheme_fsts, x, y) {
                            let j = choose|j: int| 0 <= j < s.len() && fits(*s[j], *matching) && #[trigger] accepts(
                                morpheme_fsts.spec_get(s[j].name.node@)->0, x, y);
                            if j < i {
                                assert(pre[j] == s[j]);
                            }
                        }
                        if slot_union_accepts(*matching, pre, *morpheme_fsts, x, y) {
                            let j = choose|j: int| 0 <= j < pre.len() && fits(*pre[j], *matching) && #[trigger] accepts(
                                morpheme_fsts.spec_get(pre[j].name.node@)->0, x, y);
                            assert(pre[j] == s[j]);
                        }
                    }
                }
            }
        }
        i = i + 1;
    }
    proof {
        assert(all_morphemes@.take(all_morphemes@.len() as int) =~= all_morphemes@);
    }
    match acc {
        Some(f) => Ok(f),
        None => Ok(epsilon_machine()),
    }
}

/// The machine of an eager slot: the ε-acceptor (per-cell rules are not
/// compiled at this layer, so the slot contributes no surface).
pub fn build_eager_slot_stub(slot_def: &SlotDef, alpha: &PhonruleAlphabet) -> (r: Result<Fst, SlotCompileError>)
    ensures
        r matches Ok(f) && f.wf() && is_loop_machine(f, Seq::empty()),
{
    Ok(epsilon_machine())
}

/// The machine of a stem named by the chain: the identity on Σ and the
/// stream markers, which admits any stem until the entry's own stem is
/// bound.
pub fn build_stem_anchor_stub(stem_name: &str, alpha: &PhonruleAlphabet) -> (r: Result<Fst, SlotCompileError>)
    ensures
        r matches Ok(f) && f.wf() && is_loop_machine(f, identity_pairs(alpha.sigma_seq()) + marker_pairs()),
{
    Ok(build_identity_over_sigma(alpha))
}

} // verus!
