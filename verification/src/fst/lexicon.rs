//! The morpheme lexicon: a transducer from morpheme-id labels to surface
//! strings.
//!
//! A morpheme (an entry without an inflection) compiles to a chain that
//! reads its id label on the first arc and writes the surface one
//! character label per arc; the lexicon is the union of those chains.

use vstd::prelude::*;

use crate::ast::{Entry, Headword};
use crate::text::{char_to_string, str_chars, str_eq, str_to_owned, string_push_str};
use super::alphabet::{PhonruleAlphabet, FIRST_MORPHEME_LABEL};
use super::laws::lemma_same_shape_accepts;
use super::backend::{first_index, Label, EPS_LABEL};
use super::machine::{
    strip_eps, unites,
    accepts, arc_sort_input, arc_sort_output, chain_machine, is_chain_machine, paths, runs_fewer_than, union, Fst,
    PATH_STEP_LIMIT, in_tree, lemma_chain_in_tree, lemma_same_rows_in_tree, lemma_tree_runs_fewer, lemma_union_in_tree,
    num_states, is_tree_shaped, paths_within,
};
use super::phonrule::class::{alphabet_extends, lemma_extends_refl, lemma_extends_trans, lemma_intern_extends, lit_label};

verus! {

/// Error compiling a morpheme or a lexicon.
#[derive(Debug, Clone, PartialEq, Eq)]
pub enum LexiconCompileError {
    /// No entries were given.
    EmptyLexicon,
    /// The entry has an inflection, so it is not a morpheme.
    NotAMorpheme { entry_name: String },
    /// The FST kernel failed.
    Backend(String),
}

impl LexiconCompileError {
    /// The message shown for this error.
    pub open spec fn msg(&self) -> Seq<char> {
        match self {
            LexiconCompileError::EmptyLexicon => "lexicon compilation called with empty entry slice"@,
            LexiconCompileError::NotAMorpheme { entry_name } => "entry '"@ + entry_name@ + "' has an inflection — only inflectionless entries are morphemes"@,
            LexiconCompileError::Backend(s) => "lexicon compile backend error: "@ + s@,
        }
    }

    /// The message shown for this error.
    pub fn message(&self) -> (s: String)
        ensures
            s@ == self.msg(),
    {
        match self {
            LexiconCompileError::EmptyLexicon => crate::text::str_to_owned("lexicon compilation called with empty entry slice"),
            LexiconCompileError::NotAMorpheme { entry_name } => {
                let mut out = String::new();
                crate::text::string_push_str(&mut out, "entry '");
                crate::text::string_push_str(&mut out, entry_name.as_str());
                crate::text::string_push_str(&mut out, "' has an inflection — only inflectionless entries are morphemes");
                out
            },
            LexiconCompileError::Backend(s) => {
                let mut out = String::new();
                crate::text::string_push_str(&mut out, "lexicon compile backend error: ");
                crate::text::string_push_str(&mut out, s.as_str());
                out
            },
        }
    }
}

/// Error looking a surface up in a lexicon.
#[derive(Debug, Clone, PartialEq, Eq)]
pub enum LexiconLookupError {
    /// No path reads the label.
    UnknownMorpheme { morpheme_id_label: Label },
    /// Several distinct outputs read the label.
    AmbiguousLookup { morpheme_id_label: Label, outputs: Vec<String> },
    /// An output label has no name in the alphabet.
    UnknownLabel(Label),
    /// The FST kernel failed.
    Backend(String),
}

impl LexiconLookupError {
    /// The message shown for this error.
    pub open spec fn msg(&self) -> Seq<char> {
        match self {
            LexiconLookupError::UnknownMorpheme { morpheme_id_label } => "no morpheme path for label "@ + crate::text::decimal(*morpheme_id_label as nat),
            LexiconLookupError::AmbiguousLookup { morpheme_id_label, outputs } => "ambiguous lexicon look-up for label "@ + crate::text::decimal(*morpheme_id_label as nat) + ": "@ + crate::text::strings_debug_form(outputs@.map_values(|p: String| p@)),
            LexiconLookupError::UnknownLabel(l) => "lexicon output label "@ + crate::text::decimal(*l as nat) + " not in alphabet"@,
            LexiconLookupError::Backend(s) => "lexicon look-up backend error: "@ + s@,
        }
    }

    /// The message shown for this error.
    pub fn message(&self) -> (s: String)
        ensures
            s@ == self.msg(),
    {
        match self {
            LexiconLookupError::UnknownMorpheme { morpheme_id_label } => {
                let mut out = String::new();
                crate::text::string_push_str(&mut out, "no morpheme path for label ");
                crate::text::push_decimal(&mut out, *morpheme_id_label as u64);
                out
            },
            LexiconLookupError::AmbiguousLookup { morpheme_id_label, outputs } => {
                let mut out = String::new();
                crate::text::string_push_str(&mut out, "ambiguous lexicon look-up for label ");
                crate::text::push_decimal(&mut out, *morpheme_id_label as u64);
                crate::text::string_push_str(&mut out, ": ");
                let d = crate::text::strings_debug(outputs);
                crate::text::string_push_str(&mut out, d.as_str());
                out
            },
            LexiconLookupError::UnknownLabel(l) => {
                let mut out = String::new();
                crate::text::string_push_str(&mut out, "lexicon output label ");
                crate::text::push_decimal(&mut out, *l as u64);
                crate::text::string_push_str(&mut out, " not in alphabet");
                out
            },
            LexiconLookupError::Backend(s) => {
                let mut out = String::new();
                crate::text::string_push_str(&mut out, "lexicon look-up backend error: ");
                crate::text::string_push_str(&mut out, s.as_str());
                out
            },
        }
    }
}

/// The name `"default"`.
pub open spec fn default_script_name() -> Seq<char> {
    seq!['d', 'e', 'f', 'a', 'u', 'l', 't']
}

/// Index of the first script named `"default"`, if any.
pub open spec fn default_script(scripts: Seq<(crate::ast::Ident, crate::ast::StringLit)>) -> Option<int>
    decreases scripts.len(),
{
    if scripts.len() == 0 {
        None
    } else {
        match default_script(scripts.drop_last()) {
            Some(i) => Some(i),
            None => if scripts.last().0.node@ == default_script_name() {
                Some(scripts.len() - 1)
            } else {
                None
            },
        }
    }
}

/// The surface written for a headword: a simple headword's text; for a
/// multi-script headword the `"default"` script, else the first script,
/// else the empty string.
pub open spec fn headword_surface(hw: Headword) -> Seq<char> {
    match hw {
        Headword::Simple(s) => s.node@,
        Headword::MultiScript(scripts) => match default_script(scripts@) {
            Some(i) => scripts@[i].1.node@,
            None => if scripts@.len() > 0 {
                scripts@[0].1.node@
            } else {
                Seq::empty()
            },
        },
    }
}

proof fn lemma_default_script_take(scripts: Seq<(crate::ast::Ident, crate::ast::StringLit)>, i: int)
    requires
        0 <= i < scripts.len(),
        default_script(scripts.take(i)) is None,
    ensures
        default_script(scripts.take(i + 1)) == (if scripts[i].0.node@ == default_script_name() {
            Some(i)
        } else {
            None::<int>
        }),
{
    assert(scripts.take(i + 1).drop_last() == scripts.take(i));
}

proof fn lemma_default_script_prefix(scripts: Seq<(crate::ast::Ident, crate::ast::StringLit)>, i: int)
    requires
        0 <= i <= scripts.len(),
        default_script(scripts.take(i)) is Some,
    ensures
        default_script(scripts) == default_script(scripts.take(i)),
    decreases scripts.len() - i,
{
    if i < scripts.len() {
        assert(scripts.take(i + 1).drop_last() == scripts.take(i));
        lemma_default_script_prefix(scripts, i + 1);
    } else {
        assert(scripts.take(i) == scripts);
    }
}

/// The surface string of a headword.
fn headword_to_surface(hw: &Headword) -> (s: String)
    ensures
        s@ == headword_surface(*hw),
{
    match hw {
        Headword::Simple(s) => s.node.clone(),
        Headword::MultiScript(scripts) => {
            let mut i: usize = 0;
            while i < scripts.len()
                invariant
                    i <= scripts@.len(),
                    *hw == Headword::MultiScript(*scripts),
                    default_script(scripts@.take(i as int)) is None,
                decreases scripts@.len() - i,
            {
                proof {
                    lemma_default_script_take(scripts@, i as int);
                }
                if str_eq(scripts[i].0.node.as_str(), "default") {
                    proof {
                        reveal_strlit("default");
                        assert("default"@ =~= default_script_name());
                        assert(scripts@[i as int].0.node@ == default_script_name());
                        lemma_default_script_prefix(scripts@, i + 1);
                    }
                    return scripts[i].1.node.clone();
                }
                proof {
                    reveal_strlit("default");
                    assert("default"@ =~= default_script_name());
                }
                i = i + 1;
            }
            proof {
                assert(scripts@.take(scripts@.len() as int) == scripts@);
            }
            if scripts.len() > 0 {
                scripts[0].1.node.clone()
            } else {
                String::new()
            }
        },
    }
}

/// None of the first `i` scripts is named `"default"`.
pub open spec fn no_default_before(scripts: Seq<(crate::ast::Ident, crate::ast::StringLit)>, i: int) -> bool {
    forall|j: int| 0 <= j < i ==> #[trigger] scripts[j].0.node@ != default_script_name()
}

/// Script `i` is the first named `"default"`.
pub open spec fn first_default(scripts: Seq<(crate::ast::Ident, crate::ast::StringLit)>, i: int) -> bool {
    &&& 0 <= i < scripts.len()
    &&& scripts[i].0.node@ == default_script_name()
    &&& no_default_before(scripts, i)
}

proof fn lemma_default_script_absent(scripts: Seq<(crate::ast::Ident, crate::ast::StringLit)>)
    requires
        no_default_before(scripts, scripts.len() as int),
    ensures
        default_script(scripts) is None,
    decreases scripts.len(),
{
    if scripts.len() > 0 {
        let rest = scripts.drop_last();
        assert forall|j: int| 0 <= j < rest.len() implies #[trigger] rest[j].0.node@ != default_script_name() by {
            assert(rest[j] == scripts[j]);
        }
        lemma_default_script_absent(rest);
    }
}

proof fn lemma_default_script_first(scripts: Seq<(crate::ast::Ident, crate::ast::StringLit)>, i: int)
    requires
        first_default(scripts, i),
    ensures
        default_script(scripts) == Some(i),
    decreases scripts.len(),
{
    let rest = scripts.drop_last();
    if i == scripts.len() - 1 {
        assert forall|j: int| 0 <= j < rest.len() implies #[trigger] rest[j].0.node@ != default_script_name() by {
            assert(rest[j] == scripts[j]);
        }
        lemma_default_script_absent(rest);
    } else {
        assert(rest[i] == scripts[i]);
        assert forall|j: int| 0 <= j < i implies #[trigger] rest[j].0.node@ != default_script_name() by {
            assert(rest[j] == scripts[j]);
        }
        lemma_default_script_first(rest, i);
    }
}

/// Which script a multi-script headword is written in: the first script
/// named `"default"` where there is one; where no script has that name,
/// the first script declared (not any later one); a simple headword is
/// written as its own text.
pub proof fn law_headword_script_choice(scripts: Vec<(crate::ast::Ident, crate::ast::StringLit)>, simple: crate::ast::StringLit)
    ensures
        headword_surface(Headword::Simple(simple)) == simple.node@,
        scripts@.len() > 0 && no_default_before(scripts@, scripts@.len() as int)
            ==> headword_surface(Headword::MultiScript(scripts)) == scripts@[0].1.node@,
        forall|i: int| #[trigger] first_default(scripts@, i)
            ==> headword_surface(Headword::MultiScript(scripts)) == scripts@[i].1.node@,
{
    if no_default_before(scripts@, scripts@.len() as int) {
        lemma_default_script_absent(scripts@);
    }
    assert forall|i: int| #[trigger] first_default(scripts@, i)
        implies headword_surface(Headword::MultiScript(scripts)) == scripts@[i].1.node@ by {
        lemma_default_script_first(scripts@, i);
    }
}

/// Input labels of a morpheme chain: the id label, then epsilons.
pub open spec fn morpheme_chain_inputs(id: Label, n: int) -> Seq<Label> {
    Seq::new(if n == 0 { 1 } else { n as nat }, |i: int| if i == 0 { id } else { EPS_LABEL })
}

/// Output labels of a morpheme chain: the surface labels, or a single
/// epsilon for an empty surface.
pub open spec fn morpheme_chain_outputs(surface_labels: Seq<Label>) -> Seq<Label> {
    if surface_labels.len() == 0 {
        seq![EPS_LABEL]
    } else {
        surface_labels
    }
}

/// The label of each character of `surface`, as a one-character symbol.
pub open spec fn surface_labels_in(alpha: PhonruleAlphabet, surface: Seq<char>, labels: Seq<Label>) -> bool {
    &&& labels.len() == surface.len()
    &&& forall|i: int| 0 <= i < surface.len() ==> alpha.spec_lookup(seq![#[trigger] surface[i]]) is Some
        && labels[i] == lit_label(alpha, seq![surface[i]])
}

/// Room left for new morphemes before morpheme labels would overflow.
pub open spec fn morpheme_room(alpha: PhonruleAlphabet, k: int) -> bool {
    alpha.morpheme_names().len() + (FIRST_MORPHEME_LABEL as int) + k < u32::MAX
}

/// The one-character symbols of `surface`, in order.
pub open spec fn char_symbols(surface: Seq<char>) -> Seq<Seq<char>> {
    surface.map_values(|c: char| seq![c])
}

/// The symbol names after interning each of `syms` in turn: a symbol not
/// yet named is appended, a named one changes nothing.
pub open spec fn names_after_interning(names: Seq<Seq<char>>, syms: Seq<Seq<char>>) -> Seq<Seq<char>>
    decreases syms.len(),
{
    if syms.len() == 0 {
        names
    } else {
        let n = names_after_interning(names, syms.drop_last());
        if n.contains(syms.last()) {
            n
        } else {
            n.push(syms.last())
        }
    }
}

/// The morpheme names after interning `name`.
pub open spec fn morphemes_after_interning(names: Seq<Seq<char>>, name: Seq<char>) -> Seq<Seq<char>> {
    if names.contains(name) {
        names
    } else {
        names.push(name)
    }
}

/// Compile one morpheme entry: `(id label, chain)`.
///
/// Fails exactly when the entry has an inflection, and then leaves the
/// alphabet as it was. Otherwise interns the morpheme name, then each
/// character of the surface in order.
pub fn compile_morpheme(entry: &Entry, alpha: &mut PhonruleAlphabet) -> (r: Result<(Label, Fst), LexiconCompileError>)
    requires
        old(alpha).wf(),
        morpheme_room(*old(alpha), 1),
    ensures
        final(alpha).wf(),
        r is Err ==> *final(alpha) == *old(alpha),
        r is Ok ==> final(alpha).names() == names_after_interning(old(alpha).names(), char_symbols(headword_surface(entry.headword))),
        r is Ok ==> final(alpha).morpheme_names() == morphemes_after_interning(old(alpha).morpheme_names(), entry.name.node@),
        forall|n: Seq<char>| #[trigger] old(alpha).spec_lookup(n) is Some ==> final(alpha).spec_lookup(n) == old(alpha).spec_lookup(n),
        final(alpha).morpheme_names().len() <= old(alpha).morpheme_names().len() + 1,
        final(alpha).morpheme_names().len() >= old(alpha).morpheme_names().len(),
        forall|i: int| 0 <= i < old(alpha).morpheme_names().len() ==> #[trigger] final(alpha).morpheme_names()[i] == old(alpha).morpheme_names()[i],
        match r {
            Ok((l, f)) => {
                &&& entry.inflection is None
                &&& f.wf()
                &&& final(alpha).spec_lookup_morpheme(entry.name.node@) == Some(l as int)
                &&& exists|labels: Seq<Label>|
                    #![trigger surface_labels_in(*final(alpha), headword_surface(entry.headword), labels)]
                    surface_labels_in(*final(alpha), headword_surface(entry.headword), labels) && labels.len() <= usize::MAX
                    && is_chain_machine(f, morpheme_chain_inputs(l, labels.len() as int), morpheme_chain_outputs(labels))
            },
            Err(e) => entry.inflection is Some && e == LexiconCompileError::NotAMorpheme { entry_name: entry.name.node },
        },
{
    if entry.inflection.is_some() {
        return Err(LexiconCompileError::NotAMorpheme { entry_name: entry.name.node.clone() });
    }
    let ghost a0 = *alpha;
    let morph_label = alpha.intern_morpheme(entry.name.node.as_str());
    let ghost a1 = *alpha;
    proof {
        lemma_extends_refl(a1);
        super::backend::lemma_first_index_push(a0.morpheme_names(), entry.name.node@, entry.name.node@);
        assert(a1.spec_lookup_morpheme(entry.name.node@) == Some(morph_label as int));
    }
    let surface = headword_to_surface(&entry.headword);
    let chars = str_chars(surface.as_str());
    let mut out_labels: Vec<Label> = Vec::new();
    let mut i: usize = 0;
    while i < chars.len()
        invariant
            i <= chars@.len(),
            chars@ == surface@,
            a1.wf(),
            alphabet_extends(a1, *alpha),
            out_labels@.len() == i,
            forall|k: int| 0 <= k < i ==> alpha.spec_lookup(seq![#[trigger] chars@[k]]) is Some
                && out_labels@[k] == lit_label(*alpha, seq![chars@[k]]),
            alpha.names() == names_after_interning(a1.names(), char_symbols(chars@).take(i as int)),
            alpha.morpheme_names() == a1.morpheme_names(),
        decreases chars@.len() - i,
    {
        let ghost a2 = *alpha;
        let s = char_to_string(chars[i]);
        let l = alpha.intern(s.as_str());
        proof {
            let syms = char_symbols(chars@).take(i + 1);
            assert(syms.drop_last() =~= char_symbols(chars@).take(i as int));
            assert(syms.last() == s@);
            super::backend::lemma_first_index(a2.names(), s@);
            if a2.names().contains(s@) {
                let j = choose|j: int| 0 <= j < a2.names().len() && a2.names()[j] == s@;
            }
            lemma_intern_extends(a2, *alpha, s@, l);
            lemma_extends_trans(a1, a2, *alpha);
            assert forall|k: int| 0 <= k < i implies alpha.spec_lookup(seq![#[trigger] chars@[k]]) is Some
                && out_labels@[k] == lit_label(*alpha, seq![chars@[k]]) by {
                assert(a2.spec_lookup(seq![chars@[k]]) is Some);
            }
        }
        out_labels.push(l);
        i = i + 1;
    }
    let mut ins: Vec<Label> = Vec::new();
    let mut outs: Vec<Label> = Vec::new();
    if out_labels.len() == 0 {
        ins.push(morph_label);
        outs.push(EPS_LABEL);
        proof {
            assert(ins@ =~= morpheme_chain_inputs(morph_label, 0));
            assert(outs@ =~= morpheme_chain_outputs(out_labels@));
        }
    } else {
        let mut k: usize = 0;
        while k < out_labels.len()
            invariant
                k <= out_labels@.len(),
                out_labels@.len() > 0,
                ins@.len() == k,
                outs@ == out_labels@.take(k as int),
                forall|j: int| 0 <= j < k ==> #[trigger] ins@[j] == (if j == 0 { morph_label } else { EPS_LABEL }),
            decreases out_labels@.len() - k,
        {
            if k == 0 {
                ins.push(morph_label);
            } else {
                ins.push(EPS_LABEL);
            }
            outs.push(out_labels[k]);
            proof {
                assert(out_labels@.take(k + 1) =~= out_labels@.take(k as int).push(out_labels@[k as int]));
            }
            k = k + 1;
        }
        proof {
            assert(out_labels@.take(out_labels@.len() as int) == out_labels@);
            assert(ins@ =~= morpheme_chain_inputs(morph_label, out_labels@.len() as int));
        }
    }
    let f = chain_machine(&ins, &outs);
    proof {
        assert(surface_labels_in(*alpha, headword_surface(entry.headword), out_labels@));
        assert forall|n: Seq<char>| #[trigger] a0.spec_lookup(n) is Some implies alpha.spec_lookup(n) == a0.spec_lookup(n) by {
            assert(a1.names() == a0.names());
            assert(a1.spec_lookup(n) == a0.spec_lookup(n));
        }
        assert(alpha.morpheme_names() == a1.morpheme_names());
        assert(alpha.spec_lookup_morpheme(entry.name.node@) == Some(morph_label as int));
        assert(chars@ == headword_surface(entry.headword));
        assert(is_chain_machine(f, morpheme_chain_inputs(morph_label, out_labels@.len() as int), morpheme_chain_outputs(out_labels@)));
        assert forall|i: int| 0 <= i < a0.morpheme_names().len() implies #[trigger] alpha.morpheme_names()[i] == a0.morpheme_names()[i] by {
            super::backend::lemma_first_index(a0.morpheme_names(), entry.name.node@);
        }
        assert(char_symbols(chars@).take(chars@.len() as int) =~= char_symbols(chars@));
        super::backend::lemma_first_index(a0.morpheme_names(), entry.name.node@);
        if a0.morpheme_names().contains(entry.name.node@) {
            let j = choose|j: int| 0 <= j < a0.morpheme_names().len() && a0.morpheme_names()[j] == entry.name.node@;
        }
    }
    Ok((morph_label, f))
}

/// The labels of a surface's characters.
pub open spec fn surface_labels(alpha: PhonruleAlphabet, surface: Seq<char>) -> Seq<Label> {
    surface.map_values(|c: char| lit_label(alpha, seq![c]))
}

/// What a morpheme entry contributes to a lexicon: its id label, mapped to
/// the labels of its surface (epsilons removed on both sides).
pub open spec fn morpheme_pair(alpha: PhonruleAlphabet, e: Entry) -> (Seq<Label>, Seq<Label>) {
    let l = alpha.spec_lookup_morpheme(e.name.node@)->0 as Label;
    let labels = surface_labels(alpha, headword_surface(e.headword));
    (strip_eps(morpheme_chain_inputs(l, labels.len() as int)), strip_eps(morpheme_chain_outputs(labels)))
}

/// `f` maps exactly the pairs of the entries.
pub open spec fn lexicon_language(f: Fst, alpha: PhonruleAlphabet, entries: Seq<&Entry>) -> bool {
    forall|x: Seq<Label>, y: Seq<Label>|
        #[trigger] accepts(f, x, y) <==> exists|i: int| 0 <= i < entries.len() && (x, y) == #[trigger] morpheme_pair(alpha, *entries[i])
}

/// The entry's name and surface characters are known to the alphabet.
pub open spec fn entry_known(alpha: PhonruleAlphabet, e: Entry) -> bool {
    &&& alpha.spec_lookup_morpheme(e.name.node@) is Some
    &&& forall|k: int| 0 <= k < headword_surface(e.headword).len() ==> alpha.spec_lookup(seq![#[trigger] headword_surface(e.headword)[k]]) is Some
}

/// A name found among the first names keeps its index when names are
/// added after them.
proof fn lemma_first_index_prefix(a: Seq<Seq<char>>, b: Seq<Seq<char>>, n: Seq<char>)
    requires
        a.len() <= b.len(),
        forall|i: int| 0 <= i < a.len() ==> #[trigger] b[i] == a[i],
        first_index(a, n) is Some,
    ensures
        first_index(b, n) == first_index(a, n),
{
    super::backend::lemma_first_index(a, n);
    super::backend::lemma_first_index(b, n);
    let i = first_index(a, n)->0;
    assert(b[i] == n);
    if first_index(b, n) is Some {
        let k = first_index(b, n)->0;
        if k < i {
            assert(b[k] == a[k]);
        }
    }
}

/// A known entry's pair does not change as the alphabet grows the way
/// [`compile_morpheme`] grows it.
pub proof fn lemma_pair_stable(a1: PhonruleAlphabet, a2: PhonruleAlphabet, e: Entry)
    requires
        entry_known(a1, e),
        forall|n: Seq<char>| #[trigger] a1.spec_lookup(n) is Some ==> a2.spec_lookup(n) == a1.spec_lookup(n),
        a1.morpheme_names().len() <= a2.morpheme_names().len(),
        forall|i: int| 0 <= i < a1.morpheme_names().len() ==> #[trigger] a2.morpheme_names()[i] == a1.morpheme_names()[i],
    ensures
        entry_known(a2, e),
        morpheme_pair(a2, e) == morpheme_pair(a1, e),
{
    let name = e.name.node@;
    assert(first_index(a1.morpheme_names(), name) is Some);
    lemma_first_index_prefix(a1.morpheme_names(), a2.morpheme_names(), name);
    let surface = headword_surface(e.headword);
    assert(surface_labels(a2, surface) =~= surface_labels(a1, surface)) by {
        assert forall|k: int| 0 <= k < surface.len() implies lit_label(a2, seq![surface[k]]) == lit_label(a1, seq![surface[k]]) by {
            assert(a1.spec_lookup(seq![surface[k]]) is Some);
        }
    }
    assert forall|k: int| 0 <= k < surface.len() implies a2.spec_lookup(seq![#[trigger] surface[k]]) is Some by {
        assert(a1.spec_lookup(seq![surface[k]]) is Some);
    }
}

/// The chain [`compile_morpheme`] builds maps exactly the entry's pair.
pub proof fn lemma_morpheme_chain_language(alpha: PhonruleAlphabet, e: Entry, l: Label, f: Fst)
    requires
        alpha.spec_lookup_morpheme(e.name.node@) == Some(l as int),
        exists|labels: Seq<Label>|
            #![trigger surface_labels_in(alpha, headword_surface(e.headword), labels)]
            surface_labels_in(alpha, headword_surface(e.headword), labels) && labels.len() <= usize::MAX
            && is_chain_machine(f, morpheme_chain_inputs(l, labels.len() as int), morpheme_chain_outputs(labels)),
    ensures
        entry_known(alpha, e),
        forall|x: Seq<Label>, y: Seq<Label>| #[trigger] accepts(f, x, y) <==> (x, y) == morpheme_pair(alpha, e),
{
    let surface = headword_surface(e.headword);
    let labels = choose|labels: Seq<Label>|
        #![trigger surface_labels_in(alpha, surface, labels)]
        surface_labels_in(alpha, surface, labels) && labels.len() <= usize::MAX
        && is_chain_machine(f, morpheme_chain_inputs(l, labels.len() as int), morpheme_chain_outputs(labels));
    assert(labels =~= surface_labels(alpha, surface));
    let ins = morpheme_chain_inputs(l, labels.len() as int);
    let outs = morpheme_chain_outputs(labels);
    assert(ins.len() <= usize::MAX);
    assert forall|x: Seq<Label>, y: Seq<Label>| #[trigger] accepts(f, x, y) <==> (x, y) == morpheme_pair(alpha, e) by {
        if accepts(f, x, y) {
            super::laws::lemma_chain_language(f, ins, outs, x, y);
        }
        if (x, y) == morpheme_pair(alpha, e) {
            super::laws::lemma_chain_accepts(f, ins, outs);
        }
    }
    assert forall|k: int| 0 <= k < surface.len() implies alpha.spec_lookup(seq![#[trigger] surface[k]]) is Some by {
    }
}

/// Compile the lexicon: the union of the morphemes' chains. It maps each
/// morpheme's id label to the labels of its surface, and nothing else.
///
/// Fails when no entries are given, or with the first entry that has an
/// inflection.
/// A bound on the states of a compiled lexicon: per entry its surface's
/// length and three.
pub open spec fn lexicon_size(entries: Seq<&Entry>) -> int
    decreases entries.len(),
{
    if entries.len() == 0 {
        0
    } else {
        lexicon_size(entries.drop_last()) + headword_surface(entries.last().headword).len() + 3
    }
}

/// The number of `true` flags in `s`.
pub open spec fn count_true(s: Seq<bool>) -> nat
    decreases s.len(),
{
    if s.len() == 0 {
        0
    } else {
        count_true(s.drop_last()) + if s.last() { 1nat } else { 0nat }
    }
}

/// The number of final states of `f`.
pub open spec fn final_count(f: Fst) -> nat {
    count_true(f.finals@)
}

proof fn lemma_count_true_add(a: Seq<bool>, b: Seq<bool>)
    ensures
        count_true(a + b) == count_true(a) + count_true(b),
    decreases b.len(),
{
    if b.len() == 0 {
        assert(a + b =~= a);
    } else {
        lemma_count_true_add(a, b.drop_last());
        assert((a + b).drop_last() =~= a + b.drop_last());
        assert((a + b).last() == b.last());
    }
}

proof fn lemma_count_true_none(m: nat)
    ensures
        count_true(Seq::new(m, |i: int| false)) == 0,
    decreases m,
{
    if m > 0 {
        lemma_count_true_none((m - 1) as nat);
        assert(Seq::new(m, |i: int| false).drop_last() =~= Seq::new((m - 1) as nat, |i: int| false));
    }
}

/// A union's final states are those of its two parts.
proof fn lemma_union_final_count(r: Fst, a: Fst, b: Fst)
    requires
        a.wf(),
        b.wf(),
        unites(r, a, b),
    ensures
        final_count(r) == final_count(a) + final_count(b),
{
    assert(r.finals@ =~= seq![false] + a.finals@ + b.finals@) by {
        assert forall|q: int| 0 <= q < a.n() implies r.finals@[1 + q] == a.finals@[q] by {}
        assert forall|q: int| 0 <= q < b.n() implies r.finals@[1 + a.n() + q] == b.finals@[q] by {}
    }
    lemma_count_true_add(seq![false] + a.finals@, b.finals@);
    lemma_count_true_add(seq![false], a.finals@);
    assert(seq![false].drop_last() =~= Seq::<bool>::empty());
    assert(count_true(Seq::<bool>::empty()) == 0);
    assert(count_true(seq![false]) == 0);
    assert(final_count(r) == count_true(seq![false] + a.finals@ + b.finals@));
}

/// A chain machine has one final state.
proof fn lemma_chain_final_count(f: Fst, ins: Seq<Label>, outs: Seq<Label>)
    requires
        f.wf(),
        is_chain_machine(f, ins, outs),
    ensures
        final_count(f) == 1,
{
    let m = ins.len() as int;
    assert(f.finals@ =~= Seq::new(m as nat, |i: int| false).push(true)) by {
        assert forall|s: int| 0 <= s <= m implies f.finals@[s] == (s == m) by {
            assert(f.is_final(s) == (s == m));
        }
    }
    lemma_count_true_none(m as nat);
    assert(Seq::new(m as nat, |i: int| false).push(true).drop_last() =~= Seq::new(m as nat, |i: int| false));
}

/// The machine of one morpheme, a chain, is tree-shaped with at most its
/// surface's length and two states.
proof fn lemma_morpheme_chain_shape(alpha: PhonruleAlphabet, e: Entry, l: Label, f: Fst)
    requires
        f.wf(),
        f.n() <= usize::MAX,
        exists|labels: Seq<Label>|
            #![trigger surface_labels_in(alpha, headword_surface(e.headword), labels)]
            surface_labels_in(alpha, headword_surface(e.headword), labels) && labels.len() <= usize::MAX
            && is_chain_machine(f, morpheme_chain_inputs(l, labels.len() as int), morpheme_chain_outputs(labels)),
    ensures
        in_tree(f),
        f.n() <= headword_surface(e.headword).len() + 2,
        final_count(f) == 1,
{
    let labels = choose|labels: Seq<Label>|
        #![trigger surface_labels_in(alpha, headword_surface(e.headword), labels)]
        surface_labels_in(alpha, headword_surface(e.headword), labels) && labels.len() <= usize::MAX
            && is_chain_machine(f, morpheme_chain_inputs(l, labels.len() as int), morpheme_chain_outputs(labels));
    lemma_chain_in_tree(f, morpheme_chain_inputs(l, labels.len() as int), morpheme_chain_outputs(labels));
    lemma_chain_final_count(f, morpheme_chain_inputs(l, labels.len() as int), morpheme_chain_outputs(labels));
}

pub fn compile_lexicon(morphemes: &[&Entry], alpha: &mut PhonruleAlphabet) -> (r: Result<Fst, LexiconCompileError>)
    requires
        old(alpha).wf(),
        morpheme_room(*old(alpha), morphemes@.len() as int),
    ensures
        final(alpha).wf(),
        match r {
            Ok(f) => f.wf() && morphemes@.len() > 0 && (forall|i: int| 0 <= i < morphemes@.len() ==> (#[trigger] morphemes@[i]).inflection is None)
                && lexicon_language(f, *final(alpha), morphemes@) && in_tree(f) && f.n() <= lexicon_size(morphemes@)
                && (lexicon_size(morphemes@) < PATH_STEP_LIMIT ==> runs_fewer_than(f, PATH_STEP_LIMIT as int))
                && final_count(f) == morphemes@.len() && (lexicon_size(morphemes@) < usize::MAX ==> lookup_covers(f)),
            Err(e) => (morphemes@.len() == 0 && e == LexiconCompileError::EmptyLexicon) || exists|i: int|
                0 <= i < morphemes@.len() && (#[trigger] morphemes@[i]).inflection is Some
                    && e == LexiconCompileError::NotAMorpheme { entry_name: morphemes@[i].name.node }
                    && forall|j: int| 0 <= j < i ==> morphemes@[j].inflection is None,
        },
{
    if morphemes.len() == 0 {
        return Err(LexiconCompileError::EmptyLexicon);
    }
    let (_first, first_fst) = match compile_morpheme(morphemes[0], alpha) {
        Ok(p) => p,
        Err(e) => {
            return Err(e);
        },
    };
    proof {
        lemma_morpheme_chain_language(*alpha, *morphemes@[0], _first, first_fst);
        assert forall|x: Seq<Label>, y: Seq<Label>|
            #[trigger] accepts(first_fst, x, y) <==> exists|j: int| 0 <= j < 1 && (x, y) == #[trigger] morpheme_pair(*alpha, *morphemes@.take(1)[j]) by {
            assert(morphemes@.take(1)[0] == morphemes@[0]);
        }
    }
    let n0 = num_states(&first_fst);
    proof {
        lemma_morpheme_chain_shape(*alpha, *morphemes@[0], _first, first_fst);
        assert(morphemes@.take(1).drop_last() =~= Seq::<&Entry>::empty());
        assert(lexicon_size(Seq::<&Entry>::empty()) == 0);
        assert(morphemes@.take(1).last() == morphemes@[0]);
        assert(lexicon_size(morphemes@.take(1)) == headword_surface(morphemes@[0].headword).len() + 3);
    }
    let mut acc = first_fst;
    let mut i: usize = 1;
    while i < morphemes.len()
        invariant
            1 <= i <= morphemes@.len(),
            alpha.wf(),
            morpheme_room(*alpha, morphemes@.len() - i),
            acc.wf(),
            forall|j: int| 0 <= j < i ==> (#[trigger] morphemes@[j]).inflection is None,
            forall|j: int| 0 <= j < i ==> entry_known(*alpha, *(#[trigger] morphemes@[j])),
            lexicon_language(acc, *alpha, morphemes@.take(i as int)),
            in_tree(acc),
            acc.n() <= lexicon_size(morphemes@.take(i as int)),
            final_count(acc) == i,
        decreases morphemes@.len() - i,
    {
        let ghost a1 = *alpha;
        let sub_r = compile_morpheme(morphemes[i], alpha);
        let (l, sub) = match sub_r {
            Ok((l, f)) => (l, f),
            Err(e) => {
                return Err(e);
            },
        };
        let ghost acc0 = acc;
        let ns = num_states(&sub);
        acc = union(&acc, &sub);
        proof {
            lemma_morpheme_chain_shape(*alpha, *morphemes@[i as int], l, sub);
            lemma_union_in_tree(acc, acc0, sub);
            lemma_union_final_count(acc, acc0, sub);
            assert(morphemes@.take(i + 1).drop_last() =~= morphemes@.take(i as int));
            assert(morphemes@.take(i + 1).last() == morphemes@[i as int]);
        }
        proof {
            lemma_morpheme_chain_language(*alpha, *morphemes@[i as int], l, sub);
            let pre = morphemes@.take(i as int);
            let now = morphemes@.take(i + 1);
            assert forall|j: int| 0 <= j < i implies morpheme_pair(*alpha, *pre[j]) == morpheme_pair(a1, *pre[j])
                && entry_known(*alpha, *pre[j]) by {
                assert(pre[j] == morphemes@[j]);
                lemma_pair_stable(a1, *alpha, *pre[j]);
            }
            assert forall|x: Seq<Label>, y: Seq<Label>|
                #[trigger] accepts(acc, x, y) <==> exists|j: int| 0 <= j < now.len() && (x, y) == #[trigger] morpheme_pair(*alpha, *now[j]) by {
                super::laws::lemma_union_language(acc0, sub, acc, x, y);
                if accepts(acc0, x, y) {
                    let j = choose|j: int| 0 <= j < pre.len() && (x, y) == #[trigger] morpheme_pair(a1, *pre[j]);
                    assert(now[j] == pre[j]);
                    assert((x, y) == morpheme_pair(*alpha, *now[j]));
                }
                if accepts(sub, x, y) {
                    assert(now[i as int] == morphemes@[i as int]);
                    assert((x, y) == morpheme_pair(*alpha, *now[i as int]));
                }
                if exists|j: int| 0 <= j < now.len() && (x, y) == #[trigger] morpheme_pair(*alpha, *now[j]) {
                    let j = choose|j: int| 0 <= j < now.len() && (x, y) == #[trigger] morpheme_pair(*alpha, *now[j]);
                    if j < i {
                        assert(now[j] == pre[j]);
                        assert((x, y) == morpheme_pair(a1, *pre[j]));
                        assert(accepts(acc0, x, y));
                    } else {
                        assert(now[j] == morphemes@[i as int]);
                        assert(accepts(sub, x, y));
                    }
                }
            }
            assert forall|j: int| 0 <= j < i + 1 implies entry_known(*alpha, *(#[trigger] morphemes@[j])) by {
                if j < i {
                    assert(pre[j] == morphemes@[j]);
                }
            }
        }
        i = i + 1;
    }
    let out_sorted = arc_sort_output(&acc);
    let res = arc_sort_input(&out_sorted);
    proof {
        assert(morphemes@.take(morphemes@.len() as int) =~= morphemes@);
        assert forall|x: Seq<Label>, y: Seq<Label>| #[trigger] accepts(res, x, y) == accepts(acc, x, y) by {
            super::laws::lemma_same_shape_accepts(res, acc, x, y);
        }
        lemma_same_rows_in_tree(out_sorted, acc);
        lemma_same_rows_in_tree(res, out_sorted);
        assert(res.rows().len() == res.n() && acc.rows().len() == acc.n());
        if lexicon_size(morphemes@) < PATH_STEP_LIMIT {
            lemma_tree_runs_fewer(res, PATH_STEP_LIMIT as int);
        }
    }
    Ok(res)
}

/// The input of a morpheme chain, epsilons removed, is its id label.
proof fn lemma_chain_inputs_stripped(l: Label, m: nat)
    requires
        l != EPS_LABEL,
        m >= 1,
    ensures
        strip_eps(Seq::new(m, |i: int| if i == 0 { l } else { EPS_LABEL })) == seq![l],
    decreases m,
{
    let s = Seq::new(m, |i: int| if i == 0 { l } else { EPS_LABEL });
    if m == 1 {
        assert(s.drop_last() =~= Seq::<Label>::empty());
        assert(s.last() == l);
        assert(strip_eps(s.drop_last()) == Seq::<Label>::empty());
        assert(strip_eps(s) =~= seq![l]);
    } else {
        lemma_chain_inputs_stripped(l, (m - 1) as nat);
        assert(s.drop_last() =~= Seq::new((m - 1) as nat, |i: int| if i == 0 { l } else { EPS_LABEL }));
        assert(s.last() == EPS_LABEL);
    }
}

/// The id label an entry has in `alpha`.
pub open spec fn entry_label(alpha: PhonruleAlphabet, e: Entry) -> Label {
    alpha.spec_lookup_morpheme(e.name.node@)->0 as Label
}

/// Looking up an entry's id label in a lexicon machine gives exactly the
/// surfaces of the entries with that entry's name: a morpheme maps to its
/// own surface, and to no other entry's.
pub proof fn lemma_lexicon_lookup(f: Fst, alpha: PhonruleAlphabet, entries: Seq<&Entry>, k: int, y: Seq<Label>)
    requires
        lexicon_language(f, alpha, entries),
        0 <= k < entries.len(),
        forall|j: int| 0 <= j < entries.len() ==> alpha.spec_lookup_morpheme((#[trigger] entries[j]).name.node@) is Some,
        morpheme_room(alpha, 0),
    ensures
        accepts(f, seq![entry_label(alpha, *entries[k])], y) <==> exists|j: int|
            0 <= j < entries.len() && (#[trigger] entries[j]).name.node@ == entries[k].name.node@ && y == morpheme_pair(
                alpha,
                *entries[j],
            ).1,
{
    let names = alpha.morpheme_names();
    assert forall|j: int| 0 <= j < entries.len() implies morpheme_pair(alpha, *(#[trigger] entries[j])).0 == seq![
        entry_label(alpha, *entries[j]),
    ] && (entry_label(alpha, *entries[j]) == entry_label(alpha, *entries[k]) <==> entries[j].name.node@
        == entries[k].name.node@) by {
        let e = *entries[j];
        super::backend::lemma_first_index(names, e.name.node@);
        super::backend::lemma_first_index(names, entries[k].name.node@);
        assert(alpha.spec_lookup_morpheme(e.name.node@) is Some);
        assert(alpha.spec_lookup_morpheme(entries[k].name.node@) is Some);
        let ij = first_index(names, e.name.node@)->0;
        let ik = first_index(names, entries[k].name.node@)->0;
        let lj = entry_label(alpha, e);
        assert(lj as int == FIRST_MORPHEME_LABEL as int + ij);
        assert(entry_label(alpha, *entries[k]) as int == FIRST_MORPHEME_LABEL as int + ik);
        let labels = surface_labels(alpha, headword_surface(e.headword));
        let m: nat = if labels.len() == 0 { 1 } else { labels.len() };
        assert(morpheme_chain_inputs(lj, labels.len() as int) =~= Seq::new(m, |i: int| if i == 0 { lj } else { EPS_LABEL }));
        lemma_chain_inputs_stripped(lj, m);
    }
    if accepts(f, seq![entry_label(alpha, *entries[k])], y) {
        let j = choose|j: int| 0 <= j < entries.len() && (seq![entry_label(alpha, *entries[k])], y) == #[trigger] morpheme_pair(alpha, *entries[j]);
        assert(morpheme_pair(alpha, *entries[j]).0 == seq![entry_label(alpha, *entries[j])]);
        assert(seq![entry_label(alpha, *entries[j])][0] == seq![entry_label(alpha, *entries[k])][0]);
    }
    if exists|j: int|
        0 <= j < entries.len() && (#[trigger] entries[j]).name.node@ == entries[k].name.node@ && y == morpheme_pair(alpha, *entries[j]).1 {
        let j = choose|j: int|
            0 <= j < entries.len() && (#[trigger] entries[j]).name.node@ == entries[k].name.node@ && y == morpheme_pair(alpha, *entries[j]).1;
        assert(morpheme_pair(alpha, *entries[j]).0 == seq![entry_label(alpha, *entries[j])]);
        assert((seq![entry_label(alpha, *entries[k])], y) == morpheme_pair(alpha, *entries[j]));
    }
}

/// What [`PhonruleAlphabet::label_to_str`] gives for `l`.
pub open spec fn label_str(alpha: PhonruleAlphabet, l: Label) -> Option<Seq<char>> {
    if l >= FIRST_MORPHEME_LABEL {
        if l - FIRST_MORPHEME_LABEL < alpha.morpheme_names().len() {
            Some(super::alphabet::morpheme_display(alpha.morpheme_names()[l - FIRST_MORPHEME_LABEL]))
        } else {
            None
        }
    } else if (l as int) < alpha.names().len() {
        Some(alpha.names()[l as int])
    } else {
        None
    }
}

/// The names of the labels, concatenated; `None` when some label has no
/// name.
pub open spec fn labels_str(alpha: PhonruleAlphabet, labels: Seq<Label>) -> Option<Seq<char>>
    decreases labels.len(),
{
    if labels.len() == 0 {
        Some(Seq::empty())
    } else {
        match (labels_str(alpha, labels.drop_last()), label_str(alpha, labels.last())) {
            (Some(p), Some(n)) => Some(p + n),
            _ => None,
        }
    }
}

proof fn lemma_labels_str_push(alpha: PhonruleAlphabet, labels: Seq<Label>, l: Label)
    ensures
        labels_str(alpha, labels.push(l)) == (match (labels_str(alpha, labels), label_str(alpha, l)) {
            (Some(p), Some(n)) => Some(p + n),
            _ => None,
        }),
{
    assert(labels.push(l).drop_last() == labels);
    assert(labels.push(l).last() == l);
}

/// Concatenate the names of `labels`; the first label without a name is
/// the error.
fn labels_to_string_strict(labels: &Vec<Label>, alpha: &PhonruleAlphabet) -> (r: Result<String, LexiconLookupError>)
    requires
        alpha.wf(),
    ensures
        match r {
            Ok(s) => labels_str(*alpha, labels@) == Some(s@),
            Err(e) => labels_str(*alpha, labels@) is None && exists|i: int|
                0 <= i < labels@.len() && e == LexiconLookupError::UnknownLabel(#[trigger] labels@[i])
                    && label_str(*alpha, labels@[i]) is None
                    && forall|j: int| 0 <= j < i ==> label_str(*alpha, labels@[j]) is Some,
        },
{
    let mut out = String::new();
    let mut i: usize = 0;
    while i < labels.len()
        invariant
            alpha.wf(),
            i <= labels@.len(),
            labels_str(*alpha, labels@.take(i as int)) == Some(out@),
            forall|j: int| 0 <= j < i ==> label_str(*alpha, labels@[j]) is Some,
        decreases labels@.len() - i,
    {
        let l = labels[i];
        let ghost t0 = labels@.take(i as int);
        proof {
            assert(labels@.take(i + 1) == t0.push(l));
            lemma_labels_str_push(*alpha, t0, l);
        }
        match alpha.label_to_str(l) {
            Some(name) => {
                string_push_str(&mut out, name);
            },
            None => {
                proof {
                    lemma_labels_str_none(*alpha, labels@, i as int);
                }
                return Err(LexiconLookupError::UnknownLabel(l));
            },
        }
        i = i + 1;
    }
    proof {
        assert(labels@.take(labels@.len() as int) == labels@);
    }
    Ok(out)
}

proof fn lemma_labels_str_none(alpha: PhonruleAlphabet, labels: Seq<Label>, i: int)
    requires
        0 <= i < labels.len(),
        label_str(alpha, labels[i]) is None,
    ensures
        labels_str(alpha, labels) is None,
    decreases labels.len(),
{
    if i < labels.len() - 1 {
        lemma_labels_str_none(alpha, labels.drop_last(), i);
    }
}

/// Whether two label sequences are equal.
fn same_labels(a: &Vec<Label>, b: &Vec<Label>) -> (r: bool)
    ensures
        r == (a@ == b@),
{
    if a.len() != b.len() {
        return false;
    }
    let mut i: usize = 0;
    while i < a.len()
        invariant
            a@.len() == b@.len(),
            i <= a@.len(),
            forall|j: int| 0 <= j < i ==> a@[j] == b@[j],
        decreases a@.len() - i,
    {
        if a[i] != b[i] {
            return false;
        }
        i = i + 1;
    }
    proof {
        assert(a@ =~= b@);
    }
    true
}

/// The look-up enumerates every accepting path of `f`: `f` is a
/// tree-shaped machine, or has fewer than [`PATH_STEP_LIMIT`] runs.
pub open spec fn lookup_covers(f: Fst) -> bool {
    (in_tree(f) && f.n() < usize::MAX) || runs_fewer_than(f, PATH_STEP_LIMIT as int)
}

/// Look up the surface of a morpheme id in a lexicon.
///
/// Examines the accepting paths of the lexicon that read the id: none is
/// `UnknownMorpheme`, several distinct outputs are `AmbiguousLookup` (with
/// each output's text, or the empty text where a label has no name), one
/// output is its text, or `UnknownLabel` for its first label without a
/// name. A tree-shaped lexicon (as [`compile_lexicon`] builds) is
/// enumerated completely, whatever its size; another machine up to
/// [`PATH_STEP_LIMIT`] explored runs.
pub fn lexicon_surface(lexicon_fst: &Fst, morpheme_id_label: Label, alpha: &PhonruleAlphabet) -> (r: Result<String, LexiconLookupError>)
    requires
        lexicon_fst.wf(),
        alpha.wf(),
    ensures
        match r {
            Ok(s) => exists|y: Seq<Label>|
                accepts(*lexicon_fst, strip_eps(seq![morpheme_id_label]), y) && #[trigger] labels_str(*alpha, y) == Some(s@),
            Err(LexiconLookupError::UnknownMorpheme { morpheme_id_label: l }) => l == morpheme_id_label,
            Err(LexiconLookupError::AmbiguousLookup { morpheme_id_label: l, outputs }) => l == morpheme_id_label
                && outputs@.len() > 1 && exists|y1: Seq<Label>, y2: Seq<Label>|
                #![trigger accepts(*lexicon_fst, strip_eps(seq![morpheme_id_label]), y1), accepts(*lexicon_fst, strip_eps(seq![morpheme_id_label]), y2)]
                y1 != y2 && accepts(*lexicon_fst, strip_eps(seq![morpheme_id_label]), y1) && accepts(
                    *lexicon_fst,
                    strip_eps(seq![morpheme_id_label]),
                    y2,
                ),
            Err(LexiconLookupError::UnknownLabel(l)) => label_str(*alpha, l) is None && exists|y: Seq<Label>|
                #[trigger] accepts(*lexicon_fst, strip_eps(seq![morpheme_id_label]), y) && y.contains(l),
            Err(LexiconLookupError::Backend(_)) => false,
        },
        lookup_covers(*lexicon_fst) ==> ((r matches Err(LexiconLookupError::UnknownMorpheme { .. }))
            <==> !exists|y: Seq<Label>| #[trigger] accepts(*lexicon_fst, strip_eps(seq![morpheme_id_label]), y)),
        lookup_covers(*lexicon_fst) ==> ((r matches Err(LexiconLookupError::AmbiguousLookup { .. }))
            <==> exists|y1: Seq<Label>, y2: Seq<Label>|
            #![trigger accepts(*lexicon_fst, strip_eps(seq![morpheme_id_label]), y1), accepts(*lexicon_fst, strip_eps(seq![morpheme_id_label]), y2)]
            y1 != y2 && accepts(*lexicon_fst, strip_eps(seq![morpheme_id_label]), y1) && accepts(
                *lexicon_fst,
                strip_eps(seq![morpheme_id_label]),
                y2,
            )),
{
    let mut want: Vec<Label> = Vec::new();
    if morpheme_id_label != EPS_LABEL {
        want.push(morpheme_id_label);
    }
    let ghost x = strip_eps(seq![morpheme_id_label]);
    proof {
        assert(seq![morpheme_id_label].drop_last() =~= Seq::<Label>::empty());
        assert(strip_eps(Seq::<Label>::empty()) =~= Seq::<Label>::empty());
        assert(want@ =~= x);
    }
    let n = num_states(lexicon_fst);
    let ps = if n < usize::MAX && is_tree_shaped(lexicon_fst) {
        proof {
            lemma_tree_runs_fewer(*lexicon_fst, n + 1);
        }
        paths_within(lexicon_fst, n + 1, n + 1)
    } else {
        paths(lexicon_fst, PATH_STEP_LIMIT)
    };
    proof {
        if lookup_covers(*lexicon_fst) {
            if !(n < usize::MAX && in_tree(*lexicon_fst)) {
                assert(ps@.len() < PATH_STEP_LIMIT);
            }
        }
    }
    let mut seen: Vec<Vec<Label>> = Vec::new();
    let mut i: usize = 0;
    while i < ps.len()
        invariant
            i <= ps@.len(),
            want@ == x,
            forall|q: int| 0 <= q < ps@.len() ==> accepts(*lexicon_fst, (#[trigger] ps@[q]).input@, ps@[q].output@),
            forall|q: int| 0 <= q < seen@.len() ==> accepts(*lexicon_fst, x, (#[trigger] seen@[q])@),
            forall|p: int, q: int| 0 <= p < q < seen@.len() ==> (#[trigger] seen@[p])@ != (#[trigger] seen@[q])@,
            forall|q: int| 0 <= q < i && (#[trigger] ps@[q]).input@ == x ==> exists|t: int| 0 <= t < seen@.len() && seen@[t]@ == ps@[q].output@,
        decreases ps@.len() - i,
    {
        if same_labels(&ps[i].input, &want) {
            let mut dup = false;
            let mut j: usize = 0;
            while j < seen.len()
                invariant
                    j <= seen@.len(),
                    i < ps@.len(),
                    dup <==> exists|t: int| 0 <= t < j && (#[trigger] seen@[t])@ == ps@[i as int].output@,
                decreases seen@.len() - j,
            {
                if same_labels(&seen[j], &ps[i].output) {
                    dup = true;
                }
                j = j + 1;
            }
            let ghost s0 = seen@;
            if !dup {
                seen.push(ps[i].output.clone());
                proof {
                    assert(seen@[s0.len() as int]@ == ps@[i as int].output@);
                    assert forall|q: int| 0 <= q < i + 1 && (#[trigger] ps@[q]).input@ == x implies exists|t: int|
                        0 <= t < seen@.len() && seen@[t]@ == ps@[q].output@ by {
                        if q < i {
                            let t = choose|t: int| 0 <= t < s0.len() && s0[t]@ == ps@[q].output@;
                            assert(seen@[t] == s0[t]);
                        } else {
                            assert(seen@[s0.len() as int]@ == ps@[q].output@);
                        }
                    }
                }
            }
        }
        i = i + 1;
    }
    proof {
        if lookup_covers(*lexicon_fst) {
            assert forall|y: Seq<Label>| #[trigger] accepts(*lexicon_fst, x, y) implies exists|t: int|
                0 <= t < seen@.len() && seen@[t]@ == y by {
                let q = choose|q: int| 0 <= q < ps@.len() && (#[trigger] ps@[q]).input@ == x && ps@[q].output@ == y;
            }
        }
    }
    if seen.len() == 0 {
        return Err(LexiconLookupError::UnknownMorpheme { morpheme_id_label });
    }
    if seen.len() > 1 {
        let mut outputs: Vec<String> = Vec::new();
        let mut k: usize = 0;
        while k < seen.len()
            invariant
                alpha.wf(),
                k <= seen@.len(),
                outputs@.len() == k,
            decreases seen@.len() - k,
        {
            let text = match labels_to_string_strict(&seen[k], alpha) {
                Ok(s) => s,
                Err(_) => String::new(),
            };
            outputs.push(text);
            k = k + 1;
        }
        proof {
            assert(seen@[0]@ != seen@[1]@);
            assert(accepts(*lexicon_fst, x, seen@[0]@));
            assert(accepts(*lexicon_fst, x, seen@[1]@));
        }
        return Err(LexiconLookupError::AmbiguousLookup { morpheme_id_label, outputs });
    }
    proof {
        assert(accepts(*lexicon_fst, x, seen@[0]@));
        if lookup_covers(*lexicon_fst) {
            assert forall|y1: Seq<Label>, y2: Seq<Label>|
                accepts(*lexicon_fst, x, y1) && accepts(*lexicon_fst, x, y2) implies y1 == y2 by {
                let t1 = choose|t: int| 0 <= t < seen@.len() && seen@[t]@ == y1;
                let t2 = choose|t: int| 0 <= t < seen@.len() && seen@[t]@ == y2;
            }
        }
    }
    labels_to_string_strict(&seen[0], alpha)
}

} // verus!
