//! Closed-alphabet handle for phonrule FST compilation.
//!
//! One symbol table serves as both input and output alphabet. Labels
//! `1..16` are reserved for control markers (boundary, word edges, the
//! Karttunen brackets, the directed-replacement caret and placeholders);
//! user symbols get labels from 16 upward and form the runtime alphabet Σ.
//! Morpheme-identity symbols live in their own range from 65536 upward and
//! are never members of Σ.

use vstd::prelude::*;

use crate::phoneme::PhonemeInventory;
use crate::text::{str_eq, str_to_owned, string_push_str};

use super::backend::{Label, SymbolTable, EPS_LABEL, first_index, lemma_first_index};

verus! {

/// Reserved label for the in-stream boundary marker.
pub const BOUNDARY_LABEL: Label = 1;

/// Reserved label for the word-start anchor (`^`).
pub const WORD_START_LABEL: Label = 2;

/// Reserved label for the word-end anchor (`$`).
pub const WORD_END_LABEL: Label = 3;

/// Karttunen `[+]` — opening bracket for an obligatory rewrite site.
pub const BRACKET_OPEN_OBLIG_LABEL: Label = 4;

/// Karttunen `[-]` — opening bracket for an optional site.
pub const BRACKET_OPEN_OPT_LABEL: Label = 5;

/// Karttunen `]+` — closing bracket for an obligatory rewrite site.
pub const BRACKET_CLOSE_OBLIG_LABEL: Label = 6;

/// Karttunen `]-` — closing bracket for an optional site.
pub const BRACKET_CLOSE_OPT_LABEL: Label = 7;

/// Directed-replacement caret, introduced and stripped internally; not in Σ.
pub const CARET_OBLIG_LABEL: Label = 8;

/// First label available for phoneme / literal symbols.
pub const FIRST_USER_LABEL: Label = 16;

/// Number of reserved low labels, epsilon included.
pub const RESERVED_LABEL_COUNT: Label = FIRST_USER_LABEL;

/// First label used for morpheme-identity symbols.
pub const FIRST_MORPHEME_LABEL: Label = 65536;

/// The names of labels `0..16`.
pub open spec fn reserved_names() -> Seq<Seq<char>> {
    seq![
        "<eps>"@, "<bdy>"@, "<^>"@, "<$>"@, "<[+]>"@, "<[->"@, "<]+>"@, "<]->"@,
        "<caret>"@, "<rsv9>"@, "<rsv10>"@, "<rsv11>"@, "<rsv12>"@, "<rsv13>"@, "<rsv14>"@, "<rsv15>"@,
    ]
}

/// `<m:NAME>`.
pub open spec fn morpheme_display(name: Seq<char>) -> Seq<char> {
    "<m:"@ + name + ">"@
}

/// Closed-alphabet handle.
#[derive(Debug, Clone)]
pub struct PhonruleAlphabet {
    symtab: SymbolTable,
    /// Σ: the user labels, in interning order.
    sigma: Vec<Label>,
    /// Morpheme names; the `i`-th has label `FIRST_MORPHEME_LABEL + i`.
    morphemes: Vec<String>,
    /// `<m:NAME>` for each morpheme, same order.
    morpheme_prefixed_names: Vec<String>,
    /// Next morpheme label to hand out.
    next_morpheme_label: Label,
}

impl PhonruleAlphabet {
    /// Symbol names by label (labels below `FIRST_MORPHEME_LABEL`).
    pub closed spec fn names(&self) -> Seq<Seq<char>> {
        self.symtab.names()
    }

    /// Σ, in interning order.
    pub closed spec fn sigma_seq(&self) -> Seq<Label> {
        self.sigma@
    }

    /// Morpheme names, by index from `FIRST_MORPHEME_LABEL`.
    pub closed spec fn morpheme_names(&self) -> Seq<Seq<char>> {
        self.morphemes@.map_values(|s: String| s@)
    }

    /// The alphabet invariant: reserved names first, Σ is exactly the
    /// labels of the names after them, morphemes are numbered in order.
    pub closed spec fn wf(&self) -> bool {
        &&& self.symtab.names().len() >= 16
        &&& self.symtab.names().no_duplicates()
        &&& self.symtab.names().take(16) == reserved_names()
        &&& self.sigma@.len() + 16 == self.symtab.names().len()
        &&& forall|i: int| 0 <= i < self.sigma@.len() ==> #[trigger] self.sigma@[i] == ((i + 16) as u32)
        &&& self.morpheme_prefixed_names@.len() == self.morphemes@.len()
        &&& forall|i: int| 0 <= i < self.morphemes@.len() ==>
            #[trigger] self.morpheme_prefixed_names@[i]@ == morpheme_display(self.morphemes@[i]@)
        &&& self.next_morpheme_label as int == FIRST_MORPHEME_LABEL as int + self.morphemes@.len()
    }

    /// Label of a symbol name, if known.
    pub open spec fn spec_lookup(&self, s: Seq<char>) -> Option<int> {
        first_index(self.names(), s)
    }

    /// Label of a morpheme name, if known.
    pub open spec fn spec_lookup_morpheme(&self, s: Seq<char>) -> Option<int> {
        match first_index(self.morpheme_names(), s) {
            Some(i) => Some(FIRST_MORPHEME_LABEL as int + i),
            None => None,
        }
    }

    /// Build a fresh alphabet from a phoneme inventory: the reserved
    /// markers, then every distinct terminal in ascending order, so the
    /// terminals get labels from `FIRST_USER_LABEL` upward and form Σ.
    /// (A terminal spelled like a reserved marker keeps the marker's label.)
    pub fn from_inventory(inventory: &PhonemeInventory) -> (a: Self)
        ensures
            a.wf(),
            a.names().len() >= 16,
            a.names().take(16) == reserved_names(),
            forall|i: int, j: int| 16 <= i < j < a.names().len() ==> char_seq_lt(#[trigger] a.names()[i], #[trigger] a.names()[j]),
            forall|t: Seq<char>| a.names().skip(16).contains(t) <==> (texts(inventory.all_terminals@).contains(t)
                && !reserved_names().contains(t)),
            a.sigma_seq().len() + 16 == a.names().len(),
            forall|i: int| 0 <= i < a.sigma_seq().len() ==> #[trigger] a.sigma_seq()[i] == ((i + 16) as u32),
            a.morpheme_names().len() == 0,
    {
        let sorted = sorted_unique(&inventory.all_terminals);
        let mut alpha = Self::empty();
        let mut k: usize = 0;
        while k < sorted.len()
            invariant
                alpha.wf(),
                k <= sorted@.len(),
                forall|a: int, b: int| 0 <= a < b < sorted@.len() ==> char_seq_lt((#[trigger] sorted@[a])@, (#[trigger] sorted@[b])@),
                alpha.names().len() >= 16,
                alpha.names().take(16) == reserved_names(),
                alpha.morpheme_names().len() == 0,
                forall|i: int, j: int| 16 <= i < j < alpha.names().len() ==> char_seq_lt(#[trigger] alpha.names()[i], #[trigger] alpha.names()[j]),
                forall|i: int| 16 <= i < alpha.names().len() ==> exists|b: int| 0 <= b < k && #[trigger] alpha.names()[i] == (#[trigger] sorted@[b])@,
                forall|i: int| 16 <= i < alpha.names().len() ==> !reserved_names().contains(#[trigger] alpha.names()[i]),
                forall|b: int| 0 <= b < k && !reserved_names().contains((#[trigger] sorted@[b])@) ==> alpha.names().skip(16).contains(sorted@[b]@),
            decreases sorted@.len() - k,
        {
            let ghost n0 = alpha.names();
            let ghost t = sorted@[k as int]@;
            proof {
                lemma_first_index(n0, t);
                assert forall|i: int| 16 <= i < n0.len() implies #[trigger] n0[i] != t by {
                    let b = choose|b: int| 0 <= b < k && #[trigger] n0[i] == (#[trigger] sorted@[b])@;
                    assert(char_seq_lt(sorted@[b]@, t));
                    lemma_lt_total(t, t);
                }
                if reserved_names().contains(t) {
                    let r = choose|r: int| 0 <= r < 16 && reserved_names()[r] == t;
                    assert(n0[r] == n0.take(16)[r]);
                }
                if !reserved_names().contains(t) {
                    assert forall|i: int| 0 <= i < 16 implies #[trigger] n0[i] != t by {
                        assert(n0[i] == n0.take(16)[i]);
                        assert(reserved_names()[i] == n0[i]);
                    }
                }
            }
            let _ = alpha.intern(sorted[k].as_str());
            proof {
                let n1 = alpha.names();
                assert(n1.take(16) =~= n0.take(16));
                if n1 != n0 {
                    assert(n1 == n0.push(t));
                    assert forall|i: int, j: int| 16 <= i < j < n1.len() implies char_seq_lt(#[trigger] n1[i], #[trigger] n1[j]) by {
                        if j == n0.len() {
                            let b = choose|b: int| 0 <= b < k && #[trigger] n0[i] == (#[trigger] sorted@[b])@;
                            assert(n1[i] == n0[i]);
                        } else {
                            assert(n1[i] == n0[i] && n1[j] == n0[j]);
                        }
                    }
                    assert forall|i: int| 16 <= i < n1.len() implies exists|b: int| 0 <= b < k + 1 && #[trigger] n1[i] == (#[trigger] sorted@[b])@ by {
                        if i == n0.len() {
                            assert(n1[i] == sorted@[k as int]@);
                        } else {
                            let b = choose|b: int| 0 <= b < k && #[trigger] n0[i] == (#[trigger] sorted@[b])@;
                            assert(n1[i] == n0[i]);
                        }
                    }
                    assert forall|i: int| 16 <= i < n1.len() implies !reserved_names().contains(#[trigger] n1[i]) by {
                        if i < n0.len() {
                            assert(n1[i] == n0[i]);
                        }
                    }
                    assert forall|b: int| 0 <= b < k + 1 && !reserved_names().contains((#[trigger] sorted@[b])@) implies n1.skip(16).contains(sorted@[b]@) by {
                        if b == k {
                            assert(n1.skip(16)[n0.len() - 16] == t);
                        } else {
                            let p = choose|p: int| 0 <= p < n0.skip(16).len() && n0.skip(16)[p] == sorted@[b]@;
                            assert(n1.skip(16)[p] == n0.skip(16)[p]);
                        }
                    }
                } else {
                    assert forall|i: int| 16 <= i < n1.len() implies exists|b: int| 0 <= b < k + 1 && #[trigger] n1[i] == (#[trigger] sorted@[b])@ by {
                        let b = choose|b: int| 0 <= b < k && #[trigger] n0[i] == (#[trigger] sorted@[b])@;
                    }
                }
            }
            k = k + 1;
        }
        proof {
            let nm = alpha.names();
            assert forall|t: Seq<char>| nm.skip(16).contains(t) <==> (texts(inventory.all_terminals@).contains(t)
                && !reserved_names().contains(t)) by {
                if nm.skip(16).contains(t) {
                    let p = choose|p: int| 0 <= p < nm.skip(16).len() && nm.skip(16)[p] == t;
                    assert(nm[p + 16] == t);
                    let b = choose|b: int| 0 <= b < sorted@.len() && #[trigger] nm[p + 16] == (#[trigger] sorted@[b])@;
                    assert(texts(sorted@)[b] == t);
                    assert(texts(sorted@).contains(t));
                }
                if texts(inventory.all_terminals@).contains(t) && !reserved_names().contains(t) {
                    assert(texts(sorted@).contains(t));
                    let b = choose|b: int| 0 <= b < texts(sorted@).len() && texts(sorted@)[b] == t;
                    assert(sorted@[b]@ == t);
                }
            }
        }
        alpha
    }

    /// An alphabet with only the reserved markers.
    pub fn empty() -> (a: Self)
        ensures
            a.wf(),
            a.names() == reserved_names(),
            a.sigma_seq().len() == 0,
            a.morpheme_names().len() == 0,
    {
        let mut v: Vec<String> = Vec::new();
        v.push(str_to_owned("<eps>"));
        v.push(str_to_owned("<bdy>"));
        v.push(str_to_owned("<^>"));
        v.push(str_to_owned("<$>"));
        v.push(str_to_owned("<[+]>"));
        v.push(str_to_owned("<[->"));
        v.push(str_to_owned("<]+>"));
        v.push(str_to_owned("<]->"));
        v.push(str_to_owned("<caret>"));
        v.push(str_to_owned("<rsv9>"));
        v.push(str_to_owned("<rsv10>"));
        v.push(str_to_owned("<rsv11>"));
        v.push(str_to_owned("<rsv12>"));
        v.push(str_to_owned("<rsv13>"));
        v.push(str_to_owned("<rsv14>"));
        v.push(str_to_owned("<rsv15>"));
        let a = PhonruleAlphabet {
            symtab: SymbolTable { id_to_name: v },
            sigma: Vec::new(),
            morphemes: Vec::new(),
            morpheme_prefixed_names: Vec::new(),
            next_morpheme_label: FIRST_MORPHEME_LABEL,
        };
        proof {
            reveal_strlit("<eps>");
            reveal_strlit("<bdy>");
            reveal_strlit("<^>");
            reveal_strlit("<$>");
            reveal_strlit("<[+]>");
            reveal_strlit("<[->");
            reveal_strlit("<]+>");
            reveal_strlit("<]->");
            reveal_strlit("<caret>");
            reveal_strlit("<rsv9>");
            reveal_strlit("<rsv10>");
            reveal_strlit("<rsv11>");
            reveal_strlit("<rsv12>");
            reveal_strlit("<rsv13>");
            reveal_strlit("<rsv14>");
            reveal_strlit("<rsv15>");
            assert(a.symtab.names() =~= reserved_names());
            assert(reserved_names().no_duplicates()) by {
                let r = reserved_names();
                assert forall|i: int, j: int| 0 <= i < r.len() && 0 <= j < r.len() && i != j implies r[i] != r[j] by {
                    if r[i].len() == r[j].len() {
                        if r[i].len() == 5 {
                            assert(r[i][1] != r[j][1] || r[i][2] != r[j][2]);
                        } else if r[i].len() == 7 {
                            assert(r[i][1] != r[j][1] || r[i][5] != r[j][5]);
                        } else if r[i].len() == 4 {
                            assert(r[i][1] != r[j][1] || r[i][2] != r[j][2]);
                        } else {
                            assert(r[i][1] != r[j][1]);
                        }
                    }
                }
            }
            assert(a.symtab.names().take(16) =~= reserved_names());
            assert(a.morpheme_names() =~= Seq::<Seq<char>>::empty());
        }
        a
    }

    /// Label of the in-stream boundary marker.
    pub fn boundary_label(&self) -> (l: Label)
        ensures
            l == BOUNDARY_LABEL,
    {
        BOUNDARY_LABEL
    }

    /// Label of the word-start anchor.
    pub fn word_start_label(&self) -> (l: Label)
        ensures
            l == WORD_START_LABEL,
    {
        WORD_START_LABEL
    }

    /// Label of the word-end anchor.
    pub fn word_end_label(&self) -> (l: Label)
        ensures
            l == WORD_END_LABEL,
    {
        WORD_END_LABEL
    }

    /// Label of the directed-replacement caret.
    pub fn caret_label(&self) -> (l: Label)
        ensures
            l == CARET_OBLIG_LABEL,
    {
        CARET_OBLIG_LABEL
    }

    /// Get-or-create the label of a symbol. A new symbol gets the next
    /// label and joins Σ; a known one (reserved names included) keeps its
    /// label and leaves Σ alone.
    pub fn intern(&mut self, symbol: &str) -> (l: Label)
        requires
            old(self).wf(),
        ensures
            final(self).wf(),
            final(self).morpheme_names() == old(self).morpheme_names(),
            old(self).spec_lookup(symbol@) is Some ==> final(self).names() == old(self).names()
                && final(self).sigma_seq() == old(self).sigma_seq()
                && l == (old(self).spec_lookup(symbol@)->0 as u32),
            old(self).spec_lookup(symbol@) is None ==> final(self).names() == old(self).names().push(symbol@)
                && final(self).sigma_seq() == old(self).sigma_seq().push(l)
                && l == (old(self).names().len() as u32),
            final(self).spec_lookup(symbol@) is Some,
    {
        let ghost old_names = self.symtab.names();
        match self.symtab.label(symbol) {
            Some(existing) => existing,
            None => {
                let l = self.symtab.intern(symbol);
                self.sigma.push(l);
                proof {
                    lemma_first_index(old_names, symbol@);
                    assert(self.symtab.names().no_duplicates()) by {
                        let nn = self.symtab.names();
                        assert forall|i: int, j: int| 0 <= i < nn.len() && 0 <= j < nn.len() && i != j implies nn[i] != nn[j] by {
                            if i < old_names.len() && j < old_names.len() {
                                assert(nn[i] == old_names[i] && nn[j] == old_names[j]);
                            } else if i < old_names.len() {
                                assert(nn[i] == old_names[i]);
                            } else {
                                assert(nn[j] == old_names[j]);
                            }
                        }
                    }
                    assert(self.symtab.names().take(16) =~= old_names.take(16));
                    let i = self.sigma@.len() - 1;
                    assert(self.sigma@[i] == l);
                    assert(l == (old_names.len() as u32));
                }
                l
            },
        }
    }

    /// Label of a symbol, without interning.
    pub fn lookup(&self, symbol: &str) -> (r: Option<Label>)
        ensures
            match self.spec_lookup(symbol@) {
                Some(i) => r == Some(i as u32),
                None => r is None,
            },
    {
        self.symtab.label(symbol)
    }

    /// Name of a label: symbol-table names below `FIRST_MORPHEME_LABEL`,
    /// `<m:NAME>` for morpheme labels, `None` for unknown labels.
    pub fn label_to_str(&self, label: Label) -> (r: Option<&str>)
        requires
            self.wf(),
        ensures
            label < FIRST_MORPHEME_LABEL && (label as int) < self.names().len() ==> r is Some && r->0@ == self.names()[label as int],
            label < FIRST_MORPHEME_LABEL && (label as int) >= self.names().len() ==> r is None,
            label >= FIRST_MORPHEME_LABEL && label - FIRST_MORPHEME_LABEL < self.morpheme_names().len() ==> r is Some
                && r->0@ == morpheme_display(self.morpheme_names()[label - FIRST_MORPHEME_LABEL]),
            label >= FIRST_MORPHEME_LABEL && label - FIRST_MORPHEME_LABEL >= self.morpheme_names().len() ==> r is None,
    {
        if label >= FIRST_MORPHEME_LABEL {
            return self.label_to_morpheme_prefixed(label);
        }
        self.symtab.name(label)
    }

    /// Get-or-create the label of a morpheme; new morphemes get the next
    /// label from `FIRST_MORPHEME_LABEL` upward.
    pub fn intern_morpheme(&mut self, name: &str) -> (l: Label)
        requires
            old(self).wf(),
            old(self).morpheme_names().len() + (FIRST_MORPHEME_LABEL as int) < u32::MAX,
        ensures
            final(self).wf(),
            final(self).names() == old(self).names(),
            final(self).sigma_seq() == old(self).sigma_seq(),
            old(self).spec_lookup_morpheme(name@) is Some ==> final(self).morpheme_names() == old(self).morpheme_names()
                && l as int == old(self).spec_lookup_morpheme(name@)->0,
            old(self).spec_lookup_morpheme(name@) is None ==> final(self).morpheme_names() == old(self).morpheme_names().push(name@)
                && l as int == FIRST_MORPHEME_LABEL as int + old(self).morpheme_names().len(),
            final(self).spec_lookup_morpheme(name@) is Some,
    {
        proof {
            lemma_first_index(self.morpheme_names(), name@);
        }
        match self.find_morpheme(name) {
            Some(i) => FIRST_MORPHEME_LABEL + i as u32,
            None => {
                let l = self.next_morpheme_label;
                let ghost old_names = self.morpheme_names();
                self.next_morpheme_label = self.next_morpheme_label + 1;
                self.morphemes.push(str_to_owned(name));
                let mut p = str_to_owned("<m:");
                string_push_str(&mut p, name);
                string_push_str(&mut p, ">");
                self.morpheme_prefixed_names.push(p);
                proof {
                    assert(self.morpheme_names() =~= old_names.push(name@));
                    super::backend::lemma_first_index_push(old_names, name@, name@);
                }
                l
            },
        }
    }

    fn find_morpheme(&self, name: &str) -> (r: Option<usize>)
        requires
            self.wf(),
        ensures
            match r {
                Some(i) => first_index(self.morpheme_names(), name@) == Some(i as int)
                    && (i as int) < self.morpheme_names().len(),
                None => first_index(self.morpheme_names(), name@) is None,
            },
    {
        proof {
            lemma_first_index(self.morpheme_names(), name@);
        }
        let mut i: usize = 0;
        while i < self.morphemes.len()
            invariant
                i <= self.morphemes@.len(),
                self.morpheme_names().len() == self.morphemes@.len(),
                forall|j: int| 0 <= j < i ==> self.morpheme_names()[j] != name@,
                match first_index(self.morpheme_names(), name@) {
                    Some(k) => 0 <= k < self.morpheme_names().len() && self.morpheme_names()[k] == name@
                        && forall|j: int| 0 <= j < k ==> self.morpheme_names()[j] != name@,
                    None => forall|j: int| 0 <= j < self.morpheme_names().len() ==> self.morpheme_names()[j] != name@,
                },
            decreases self.morphemes@.len() - i,
        {
            if str_eq(self.morphemes[i].as_str(), name) {
                assert(self.morpheme_names()[i as int] == name@);
                return Some(i);
            }
            i = i + 1;
        }
        None
    }

    /// Label of a morpheme, without interning.
    pub fn lookup_morpheme(&self, name: &str) -> (r: Option<Label>)
        requires
            self.wf(),
        ensures
            match self.spec_lookup_morpheme(name@) {
                Some(l) => r == Some(l as u32),
                None => r is None,
            },
    {
        match self.find_morpheme(name) {
            Some(i) => Some(FIRST_MORPHEME_LABEL + i as u32),
            None => None,
        }
    }

    /// Bare morpheme name of a morpheme label.
    pub fn label_to_morpheme(&self, label: Label) -> (r: Option<&str>)
        requires
            self.wf(),
        ensures
            label >= FIRST_MORPHEME_LABEL && label - FIRST_MORPHEME_LABEL < self.morpheme_names().len() ==> r is Some
                && r->0@ == self.morpheme_names()[label - FIRST_MORPHEME_LABEL],
            !(label >= FIRST_MORPHEME_LABEL && label - FIRST_MORPHEME_LABEL < self.morpheme_names().len()) ==> r is None,
    {
        if label < FIRST_MORPHEME_LABEL {
            return None;
        }
        let idx = (label - FIRST_MORPHEME_LABEL) as usize;
        if idx < self.morphemes.len() {
            Some(self.morphemes[idx].as_str())
        } else {
            None
        }
    }

    /// `<m:NAME>` form of a morpheme label.
    pub fn label_to_morpheme_prefixed(&self, label: Label) -> (r: Option<&str>)
        requires
            self.wf(),
        ensures
            label >= FIRST_MORPHEME_LABEL && label - FIRST_MORPHEME_LABEL < self.morpheme_names().len() ==> r is Some
                && r->0@ == morpheme_display(self.morpheme_names()[label - FIRST_MORPHEME_LABEL]),
            !(label >= FIRST_MORPHEME_LABEL && label - FIRST_MORPHEME_LABEL < self.morpheme_names().len()) ==> r is None,
    {
        if label < FIRST_MORPHEME_LABEL {
            return None;
        }
        let idx = (label - FIRST_MORPHEME_LABEL) as usize;
        if idx < self.morpheme_prefixed_names.len() {
            Some(self.morpheme_prefixed_names[idx].as_str())
        } else {
            None
        }
    }

    /// Every interned morpheme with its label, in interning order.
    pub fn morphemes(&self) -> (r: Vec<(String, Label)>)
        requires
            self.wf(),
        ensures
            r@.len() == self.morpheme_names().len(),
            forall|i: int| 0 <= i < r@.len() ==> (#[trigger] r@[i]).0@ == self.morpheme_names()[i]
                && r@[i].1 as int == FIRST_MORPHEME_LABEL as int + i,
    {
        let mut r: Vec<(String, Label)> = Vec::new();
        let mut i: usize = 0;
        while i < self.morphemes.len()
            invariant
                self.wf(),
                i <= self.morphemes@.len(),
                r@.len() == i,
                forall|j: int| 0 <= j < i ==> (#[trigger] r@[j]).0@ == self.morpheme_names()[j]
                    && r@[j].1 as int == FIRST_MORPHEME_LABEL as int + j,
            decreases self.morphemes@.len() - i,
        {
            r.push((str_to_owned(self.morphemes[i].as_str()), FIRST_MORPHEME_LABEL + i as u32));
            i = i + 1;
        }
        r
    }

    /// Number of interned morphemes.
    pub fn morpheme_count(&self) -> (n: usize)
        ensures
            n == self.morpheme_names().len(),
    {
        self.morphemes.len()
    }

    /// Whether `label` lies in the morpheme range.
    pub fn is_morpheme_label(&self, label: Label) -> (b: bool)
        ensures
            b == (label >= FIRST_MORPHEME_LABEL),
    {
        label >= FIRST_MORPHEME_LABEL
    }

    /// Σ, in interning order.
    pub fn sigma(&self) -> (r: Vec<Label>)
        ensures
            r@ == self.sigma_seq(),
    {
        let mut r: Vec<Label> = Vec::new();
        let mut i: usize = 0;
        while i < self.sigma.len()
            invariant
                i <= self.sigma@.len(),
                r@ == self.sigma@.take(i as int),
            decreases self.sigma@.len() - i,
        {
            r.push(self.sigma[i]);
            proof { assert(self.sigma@.take(i as int + 1) =~= self.sigma@.take(i as int).push(self.sigma@[i as int])); }
            i = i + 1;
        }
        proof { assert(self.sigma@.take(self.sigma@.len() as int) =~= self.sigma@); }
        r
    }

    /// Whether `label` is a member of Σ.
    pub fn is_in_sigma(&self, label: Label) -> (b: bool)
        ensures
            b == self.sigma_seq().contains(label),
    {
        let mut i: usize = 0;
        while i < self.sigma.len()
            invariant
                i <= self.sigma@.len(),
                forall|j: int| 0 <= j < i ==> self.sigma@[j] != label,
            decreases self.sigma@.len() - i,
        {
            if self.sigma[i] == label {
                return true;
            }
            i = i + 1;
        }
        false
    }

    /// Number of Σ members.
    pub fn sigma_len(&self) -> (n: usize)
        ensures
            n == self.sigma_seq().len(),
    {
        self.sigma.len()
    }

    /// The underlying symbol table.
    pub fn symbol_table(&self) -> (t: &SymbolTable)
        ensures
            t.names() == self.names(),
    {
        &self.symtab
    }

    /// Looking up a known symbol gives a label whose name is that symbol,
    /// so [`Self::label_to_str`] of the label returned by [`Self::intern`] or
    /// [`Self::lookup`] gives the symbol back (while fewer than 2^16 symbols
    /// are interned, so symbol labels stay below the morpheme range).
    pub proof fn lemma_symbol_round_trip(&self, s: Seq<char>)
        requires
            self.wf(),
            self.names().len() <= FIRST_MORPHEME_LABEL as int,
            self.spec_lookup(s) is Some,
        ensures
            0 <= self.spec_lookup(s)->0 < self.names().len(),
            self.spec_lookup(s)->0 < FIRST_MORPHEME_LABEL as int,
            self.names()[self.spec_lookup(s)->0] == s,
            self.spec_lookup(s)->0 == 0 ==> s == "<eps>"@,
    {
        lemma_first_index(self.names(), s);
        assert(self.names()[0] == self.names().take(16)[0]);
    }

    /// A known morpheme's label lies in the morpheme range and names it,
    /// so [`Self::label_to_morpheme`] of the label returned by
    /// [`Self::intern_morpheme`] or [`Self::lookup_morpheme`] gives the name
    /// back.
    pub proof fn lemma_morpheme_round_trip(&self, name: Seq<char>)
        requires
            self.spec_lookup_morpheme(name) is Some,
        ensures
            self.spec_lookup_morpheme(name)->0 >= FIRST_MORPHEME_LABEL as int,
            self.spec_lookup_morpheme(name)->0 - FIRST_MORPHEME_LABEL < self.morpheme_names().len(),
            self.morpheme_names()[self.spec_lookup_morpheme(name)->0 - FIRST_MORPHEME_LABEL] == name,
            self.wf() ==> self.spec_lookup_morpheme(name)->0 < u32::MAX,
    {
        lemma_first_index(self.morpheme_names(), name);
    }

    /// Every Σ label names a symbol.
    pub proof fn lemma_sigma_named(&self)
        requires
            self.wf(),
        ensures
            forall|i: int| 0 <= i < self.sigma_seq().len() ==> (#[trigger] self.sigma_seq()[i]) < self.names().len(),
    {
        assert forall|i: int| 0 <= i < self.sigma_seq().len() implies (#[trigger] self.sigma_seq()[i]) < self.names().len() by {
            assert(self.sigma@[i] == ((i + 16) as u32));
        }
    }

    /// Names are distinct, so the label of each name is its position.
    pub proof fn lemma_name_label(&self, l: int)
        requires
            self.wf(),
            0 <= l < self.names().len(),
        ensures
            self.spec_lookup(self.names()[l]) == Some(l),
    {
        lemma_first_index(self.names(), self.names()[l]);
    }

    /// Σ holds the labels after the reserved ones, one per interned
    /// symbol: the `i`-th member is `i + FIRST_USER_LABEL`, so every Σ
    /// label is at least `FIRST_USER_LABEL` and no label occurs twice
    /// (while labels fit in a `u32`).
    pub proof fn lemma_sigma_shape(&self)
        requires
            self.wf(),
            self.names().len() <= u32::MAX as int,
        ensures
            self.sigma_seq().len() + 16 == self.names().len(),
            forall|i: int| 0 <= i < self.sigma_seq().len() ==> #[trigger] self.sigma_seq()[i] == i + 16,
            forall|i: int| 0 <= i < self.sigma_seq().len() ==> #[trigger] self.sigma_seq()[i] >= FIRST_USER_LABEL,
            self.sigma_seq().no_duplicates(),
    {
        assert forall|i: int| 0 <= i < self.sigma_seq().len() implies #[trigger] self.sigma_seq()[i] == i + 16 by {
            assert(self.sigma@[i] == ((i + 16) as u32));
        }
    }

    /// A morpheme label is never a member of Σ (while fewer than 2^16
    /// symbols are interned, so Σ labels stay below the morpheme range).
    pub proof fn lemma_morpheme_label_outside_sigma(&self, name: Seq<char>)
        requires
            self.wf(),
            self.names().len() <= FIRST_MORPHEME_LABEL as int,
            self.spec_lookup_morpheme(name) is Some,
        ensures
            !self.sigma_seq().contains(self.spec_lookup_morpheme(name)->0 as u32),
    {
        self.lemma_morpheme_round_trip(name);
    }

    /// Σ members are user labels: never epsilon, a reserved marker or a
    /// morpheme label (while fewer than 2^16 symbols are interned).
    pub proof fn lemma_sigma_labels(&self)
        requires
            self.wf(),
            self.names().len() <= FIRST_MORPHEME_LABEL as int,
        ensures
            forall|i: int| 0 <= i < self.sigma_seq().len() ==> FIRST_USER_LABEL <= #[trigger] self.sigma_seq()[i] < FIRST_MORPHEME_LABEL,
    {
    }
}

/// Lexicographic order on character sequences.
pub open spec fn char_seq_lt(a: Seq<char>, b: Seq<char>) -> bool
    decreases a.len(),
{
    if b.len() == 0 {
        false
    } else if a.len() == 0 {
        true
    } else if a[0] != b[0] {
        (a[0] as u32) < (b[0] as u32)
    } else {
        char_seq_lt(a.drop_first(), b.drop_first())
    }
}

/// `a < b` in lexicographic character order.
fn str_lt(a: &str, b: &str) -> (r: bool)
    ensures
        r == char_seq_lt(a@, b@),
{
    let ca = crate::text::str_chars(a);
    let cb = crate::text::str_chars(b);
    let mut i: usize = 0;
    proof {
        assert(a@.skip(0) =~= a@);
        assert(b@.skip(0) =~= b@);
    }
    while i < ca.len() && i < cb.len() && ca[i] == cb[i]
        invariant
            ca@ == a@,
            cb@ == b@,
            i <= ca@.len(),
            i <= cb@.len(),
            char_seq_lt(a@, b@) == char_seq_lt(a@.skip(i as int), b@.skip(i as int)),
        decreases ca@.len() - i,
    {
        proof {
            assert(a@.skip(i as int).drop_first() =~= a@.skip(i as int + 1));
            assert(b@.skip(i as int).drop_first() =~= b@.skip(i as int + 1));
            assert(a@.skip(i as int)[0] == b@.skip(i as int)[0]);
        }
        i = i + 1;
    }
    proof {
        if i < ca@.len() && i < cb@.len() {
            assert(a@.skip(i as int)[0] == ca@[i as int]);
            assert(b@.skip(i as int)[0] == cb@[i as int]);
        }
    }
    if i == cb.len() {
        false
    } else if i == ca.len() {
        true
    } else {
        (ca[i] as u32) < (cb[i] as u32)
    }
}

/// `char_seq_lt` is transitive.
proof fn lemma_lt_trans(a: Seq<char>, b: Seq<char>, c: Seq<char>)
    requires
        char_seq_lt(a, b),
        char_seq_lt(b, c),
    ensures
        char_seq_lt(a, c),
    decreases a.len(),
{
    if a.len() > 0 && b.len() > 0 && c.len() > 0 && a[0] == b[0] && b[0] == c[0] {
        lemma_lt_trans(a.drop_first(), b.drop_first(), c.drop_first());
    }
}

/// Different characters have different codes.
proof fn lemma_char_code(c: char, d: char)
    requires
        c != d,
    ensures
        (c as u32) != (d as u32),
{
}

/// Two different sequences are ordered one way or the other, and never
/// both.
proof fn lemma_lt_total(a: Seq<char>, b: Seq<char>)
    ensures
        a != b ==> (char_seq_lt(a, b) || char_seq_lt(b, a)),
        !(char_seq_lt(a, b) && char_seq_lt(b, a)),
        !char_seq_lt(a, a),
    decreases a.len(),
{
    if a.len() > 0 && b.len() > 0 {
        lemma_lt_total(a.drop_first(), b.drop_first());
        if a[0] == b[0] {
            if a != b {
                assert(a.drop_first() != b.drop_first()) by {
                    if a.drop_first() == b.drop_first() {
                        assert(a =~= seq![a[0]] + a.drop_first());
                        assert(b =~= seq![b[0]] + b.drop_first());
                    }
                }
            }
        } else {
            lemma_char_code(a[0], b[0]);
        }
    } else if a.len() == 0 && b.len() == 0 {
        assert(a =~= b);
    } else if a.len() > 0 {
        lemma_lt_total(a.drop_first(), a.drop_first());
    }
}

/// The texts of `v`.
pub open spec fn texts(v: Seq<String>) -> Seq<Seq<char>> {
    v.map_values(|s: String| s@)
}

/// The distinct strings of `v`, in ascending lexicographic order.
fn sorted_unique(v: &Vec<String>) -> (r: Vec<String>)
    ensures
        forall|a: int, b: int| 0 <= a < b < r@.len() ==> char_seq_lt((#[trigger] r@[a])@, (#[trigger] r@[b])@),
        forall|t: Seq<char>| #[trigger] texts(r@).contains(t) <==> texts(v@).contains(t),
{
    let mut r: Vec<String> = Vec::new();
    let mut i: usize = 0;
    while i < v.len()
        invariant
            i <= v@.len(),
            forall|a: int, b: int| 0 <= a < b < r@.len() ==> char_seq_lt((#[trigger] r@[a])@, (#[trigger] r@[b])@),
            forall|t: Seq<char>| #[trigger] texts(r@).contains(t) <==> texts(v@.take(i as int)).contains(t),
        decreases v@.len() - i,
    {
        let s = v[i].as_str();
        let mut pos: usize = 0;
        while pos < r.len() && str_lt(r[pos].as_str(), s)
            invariant
                pos <= r@.len(),
                forall|k: int| 0 <= k < pos ==> char_seq_lt((#[trigger] r@[k])@, s@),
            decreases r@.len() - pos,
        {
            pos = pos + 1;
        }
        let ghost r0 = r@;
        proof {
            assert(v@.take(i + 1) =~= v@.take(i as int).push(v@[i as int]));
            assert(texts(v@.take(i + 1)) =~= texts(v@.take(i as int)).push(s@));
            assert forall|t: Seq<char>| texts(v@.take(i + 1)).contains(t) == (texts(v@.take(i as int)).contains(t) || t == s@) by {
                super::phonrule::class::lemma_contains_push(texts(v@.take(i as int)), s@, t);
            }
        }
        if !(pos < r.len() && str_eq(r[pos].as_str(), s)) {
            proof {
                if pos < r@.len() {
                    lemma_lt_total(r@[pos as int]@, s@);
                }
            }
            r.insert(pos, str_to_owned(s));
            proof {
                assert forall|a: int, b: int| 0 <= a < b < r@.len() implies char_seq_lt((#[trigger] r@[a])@, (#[trigger] r@[b])@) by {
                    if b < pos {
                        assert(r@[a] == r0[a] && r@[b] == r0[b]);
                    } else if b == pos {
                        assert(r@[a] == r0[a]);
                    } else if a == pos {
                        assert(r@[b] == r0[b - 1]);
                        if b - 1 > pos {
                            lemma_lt_trans(s@, r0[pos as int]@, r0[b - 1]@);
                        }
                    } else if a < pos {
                        assert(r@[a] == r0[a] && r@[b] == r0[b - 1]);
                        lemma_lt_trans(r0[a]@, s@, r0[pos as int]@);
                        if b - 1 > pos {
                            lemma_lt_trans(r0[a]@, r0[pos as int]@, r0[b - 1]@);
                        }
                    } else {
                        assert(r@[a] == r0[a - 1] && r@[b] == r0[b - 1]);
                    }
                }
                assert(texts(r@) =~= texts(r0).insert(pos as int, s@));
                assert forall|t: Seq<char>| #[trigger] texts(r@).contains(t) <==> texts(v@.take(i + 1)).contains(t) by {
                    if texts(r0).contains(t) {
                        let k = choose|k: int| 0 <= k < texts(r0).len() && texts(r0)[k] == t;
                        if k < pos {
                            assert(texts(r@)[k] == t);
                        } else {
                            assert(texts(r@)[k + 1] == t);
                        }
                    }
                    if texts(r@).contains(t) {
                        let k = choose|k: int| 0 <= k < texts(r@).len() && texts(r@)[k] == t;
                        if k < pos {
                            assert(texts(r0)[k] == t);
                        } else if k > pos {
                            assert(texts(r0)[k - 1] == t);
                        }
                    }
                    if t == s@ {
                        assert(texts(r@)[pos as int] == t);
                    }
                }
            }
        } else {
            proof {
                assert(texts(r@)[pos as int] == s@);
            }
        }
        i = i + 1;
    }
    proof {
        assert(v@.take(v@.len() as int) =~= v@);
    }
    r
}

} // verus!
