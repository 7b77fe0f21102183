//! Backend-agnostic FST vocabulary: labels, state ids, the symbol table,
//! accepting paths and the error type.

use vstd::prelude::*;

use crate::text::{str_eq, str_to_owned};

verus! {

/// FST label type. Label `0` is reserved for epsilon.
pub type Label = u32;

/// FST state identifier (an index into the machine's state vector).
pub type StateId = usize;

/// The reserved epsilon label. Arcs with `EPS_LABEL` on the input or output
/// side consume / emit nothing on that side.
pub const EPS_LABEL: Label = 0;

/// The name under which epsilon is stored at label 0.
pub open spec fn eps_name() -> Seq<char> {
    seq!['<', 'e', 'p', 's', '>']
}

/// Bidirectional name <-> label map. Label `i` names `id_to_name[i]`; the
/// label of a name is the index of its first occurrence.
///
/// By convention label `0` holds the epsilon symbol `"<eps>"`, inserted at
/// construction.
#[derive(Debug, Clone)]
pub struct SymbolTable {
    pub id_to_name: Vec<String>,
}

/// Index of the first occurrence of `n` in `names`, if any.
pub open spec fn first_index(names: Seq<Seq<char>>, n: Seq<char>) -> Option<int>
    decreases names.len(),
{
    if names.len() == 0 {
        None
    } else if names.last() == n {
        match first_index(names.drop_last(), n) {
            Some(i) => Some(i),
            None => Some(names.len() - 1),
        }
    } else {
        first_index(names.drop_last(), n)
    }
}

pub proof fn lemma_first_index(names: Seq<Seq<char>>, n: Seq<char>)
    ensures
        match first_index(names, n) {
            Some(i) => 0 <= i < names.len() && names[i] == n
                && forall|j: int| 0 <= j < i ==> names[j] != n,
            None => forall|j: int| 0 <= j < names.len() ==> names[j] != n,
        },
    decreases names.len(),
{
    if names.len() > 0 {
        lemma_first_index(names.drop_last(), n);
        assert(forall|j: int| 0 <= j < names.len() - 1 ==> names.drop_last()[j] == names[j]);
    }
}

pub proof fn lemma_first_index_push(names: Seq<Seq<char>>, m: Seq<char>, n: Seq<char>)
    ensures
        first_index(names.push(m), n) == (match first_index(names, n) {
            Some(i) => Some(i),
            None => if m == n { Some(names.len() as int) } else { None },
        }),
{
    assert(names.push(m).drop_last() == names);
}

impl SymbolTable {
    /// The names, by label.
    pub open spec fn names(&self) -> Seq<Seq<char>> {
        self.id_to_name@.map_values(|s: String| s@)
    }

    /// The label of `name`: the index of its first occurrence.
    pub open spec fn spec_label(&self, name: Seq<char>) -> Option<int> {
        first_index(self.names(), name)
    }

    pub proof fn lemma_names_len(&self)
        ensures
            self.names().len() == self.id_to_name@.len(),
    {
    }

    /// Create a new symbol table with epsilon reserved at label 0.
    pub fn new() -> (t: Self)
        ensures
            t.names() == seq![eps_name()],
    {
        let mut v: Vec<String> = Vec::new();
        v.push(str_to_owned("<eps>"));
        proof {
            reveal_strlit("<eps>");
            assert("<eps>"@ =~= eps_name());
        }
        let t = SymbolTable { id_to_name: v };
        assert(t.names() =~= seq![eps_name()]);
        t
    }

    /// Index of the first entry equal to `name`.
    fn find(&self, name: &str) -> (r: Option<usize>)
        ensures
            match r {
                Some(i) => self.spec_label(name@) == Some(i as int),
                None => self.spec_label(name@) is None,
            },
    {
        proof {
            lemma_first_index(self.names(), name@);
        }
        let mut i: usize = 0;
        while i < self.id_to_name.len()
            invariant
                i <= self.id_to_name@.len(),
                self.names().len() == self.id_to_name@.len(),
                forall|j: int| 0 <= j < i ==> self.names()[j] != name@,
                match first_index(self.names(), name@) {
                    Some(k) => 0 <= k < self.names().len() && self.names()[k] == name@
                        && forall|j: int| 0 <= j < k ==> self.names()[j] != name@,
                    None => forall|j: int| 0 <= j < self.names().len() ==> self.names()[j] != name@,
                },
            decreases self.id_to_name@.len() - i,
        {
            if str_eq(self.id_to_name[i].as_str(), name) {
                assert(self.names()[i as int] == name@);
                return Some(i);
            }
            i = i + 1;
        }
        None
    }

    /// Intern a symbol. Returns its label, inserting it if new. A new
    /// symbol gets the next label, `len() as Label`.
    pub fn intern(&mut self, name: &str) -> (l: Label)
        ensures
            old(self).spec_label(name@) is Some ==> final(self).names() == old(self).names()
                && l == (old(self).spec_label(name@)->0 as u32),
            old(self).spec_label(name@) is None ==> final(self).names() == old(self).names().push(name@)
                && l == (old(self).names().len() as u32),
            final(self).spec_label(name@) is Some,
            final(self).names().len() < old(self).names().len() ==> false,
    {
        match self.find(name) {
            Some(i) => {
                proof {
                    lemma_first_index(self.names(), name@);
                }
                i as Label
            },
            None => {
                let id = self.id_to_name.len() as Label;
                let ghost old_names = self.names();
                self.id_to_name.push(str_to_owned(name));
                proof {
                    assert(self.names() =~= old_names.push(name@));
                    lemma_first_index_push(old_names, name@, name@);
                }
                id
            },
        }
    }

    /// Look up a symbol by label.
    pub fn name(&self, label: Label) -> (r: Option<&str>)
        ensures
            (label as int) < self.names().len() ==> r is Some && r->0@ == self.names()[label as int],
            (label as int) >= self.names().len() ==> r is None,
    {
        if (label as usize) < self.id_to_name.len() {
            Some(self.id_to_name[label as usize].as_str())
        } else {
            None
        }
    }

    /// Look up a label by symbol name.
    pub fn label(&self, name: &str) -> (r: Option<Label>)
        ensures
            match self.spec_label(name@) {
                Some(i) => r == Some(i as u32),
                None => r is None,
            },
    {
        match self.find(name) {
            Some(i) => Some(i as Label),
            None => None,
        }
    }

    /// Number of symbols (including epsilon).
    pub fn len(&self) -> (n: usize)
        ensures
            n == self.names().len(),
    {
        self.id_to_name.len()
    }

    /// Whether the table is empty (never true for a table made by `new`).
    pub fn is_empty(&self) -> (b: bool)
        ensures
            b == (self.names().len() == 0),
    {
        self.id_to_name.len() == 0
    }
}

/// One accepting path through an FST, with epsilon labels removed on both
/// sides.
#[derive(Debug, Clone, PartialEq, Eq, Hash)]
pub struct Path {
    pub input: Vec<Label>,
    pub output: Vec<Label>,
}

/// Errors the FST kernel can produce.
#[derive(Debug)]
pub enum FstError {
    Backend(String),
    NoStart,
    BadState(StateId),
    Io(String),
    Deserialize(String),
}

impl FstError {
    /// The message shown for this error.
    pub open spec fn msg(&self) -> Seq<char> {
        match self {
            FstError::Backend(s) => "FST operation failed: "@ + s@,
            FstError::NoStart => "FST has no start state"@,
            FstError::BadState(id) => "invalid state id: "@ + crate::text::decimal(*id as nat),
            FstError::Io(s) => "I/O error: "@ + s@,
            FstError::Deserialize(s) => "deserialization failed: "@ + s@,
        }
    }

    /// The message shown for this error.
    pub fn message(&self) -> (s: String)
        ensures
            s@ == self.msg(),
    {
        match self {
            FstError::Backend(s) => {
                let mut out = String::new();
                crate::text::string_push_str(&mut out, "FST operation failed: ");
                crate::text::string_push_str(&mut out, s.as_str());
                out
            },
            FstError::NoStart => crate::text::str_to_owned("FST has no start state"),
            FstError::BadState(id) => {
                let mut out = String::new();
                crate::text::string_push_str(&mut out, "invalid state id: ");
                crate::text::push_decimal(&mut out, *id as u64);
                out
            },
            FstError::Io(s) => {
                let mut out = String::new();
                crate::text::string_push_str(&mut out, "I/O error: ");
                crate::text::string_push_str(&mut out, s.as_str());
                out
            },
            FstError::Deserialize(s) => {
                let mut out = String::new();
                crate::text::string_push_str(&mut out, "deserialization failed: ");
                crate::text::string_push_str(&mut out, s.as_str());
                out
            },
        }
    }
}

/// Result type for FST operations.
pub type FstResult<T> = Result<T, FstError>;

/// The FST kernel facade: every operation the morphology layer needs,
/// value in, value out. A backend chooses its machine and builder types;
/// the morphology layer names machines only through them.
pub trait FstBackend: Sized {
    /// The backend's machine.
    type Fst;

    /// The backend's mutable machine under construction.
    type Builder: FstBuilder<Fst = Self::Fst>;

    /// Machines this backend's operations accept (and produce).
    spec fn fst_ok(f: &Self::Fst) -> bool;

    /// A new empty builder.
    fn builder() -> (b: Self::Builder)
        ensures
            b.builder_ok(),
    ;

    /// Concatenation: accepts `L(a) · L(b)`.
    fn concat(a: &Self::Fst, b: &Self::Fst) -> (r: FstResult<Self::Fst>)
        requires
            Self::fst_ok(a),
            Self::fst_ok(b),
        ensures
            r matches Ok(f) ==> Self::fst_ok(&f),
    ;

    /// Union: accepts `L(a) ∪ L(b)`.
    fn union(a: &Self::Fst, b: &Self::Fst) -> (r: FstResult<Self::Fst>)
        requires
            Self::fst_ok(a),
            Self::fst_ok(b),
        ensures
            r matches Ok(f) ==> Self::fst_ok(&f),
    ;

    /// Kleene star: accepts `L(a)*`.
    fn closure_star(a: &Self::Fst) -> (r: FstResult<Self::Fst>)
        requires
            Self::fst_ok(a),
        ensures
            r matches Ok(f) ==> Self::fst_ok(&f),
    ;

    /// Kleene plus: accepts `L(a)+`.
    fn closure_plus(a: &Self::Fst) -> (r: FstResult<Self::Fst>)
        requires
            Self::fst_ok(a),
        ensures
            r matches Ok(f) ==> Self::fst_ok(&f),
    ;

    /// Optional: accepts `L(a) ∪ {ε}`.
    fn closure_optional(a: &Self::Fst) -> (r: FstResult<Self::Fst>)
        requires
            Self::fst_ok(a),
        ensures
            r matches Ok(f) ==> Self::fst_ok(&f),
    ;

    /// Bounded repeat `{n,m}`: any concatenation of `n..=m` copies of
    /// `L(a)`.
    fn closure_bounded(a: &Self::Fst, n: u32, m: u32) -> (r: FstResult<Self::Fst>)
        requires
            Self::fst_ok(a),
        ensures
            r matches Ok(f) ==> Self::fst_ok(&f),
    ;

    /// Acceptor complement over an explicit alphabet: `alphabet* \ L(a)`.
    fn complement(a: &Self::Fst, alphabet: &[Label]) -> (r: FstResult<Self::Fst>)
        requires
            Self::fst_ok(a),
        ensures
            r matches Ok(f) ==> Self::fst_ok(&f),
    ;

    /// Acceptor intersection: `L(a) ∩ L(b)`.
    fn intersect(a: &Self::Fst, b: &Self::Fst) -> (r: FstResult<Self::Fst>)
        requires
            Self::fst_ok(a),
            Self::fst_ok(b),
        ensures
            r matches Ok(f) ==> Self::fst_ok(&f),
    ;

    /// Composition `a ∘ b`.
    fn compose(a: &Self::Fst, b: &Self::Fst) -> (r: FstResult<Self::Fst>)
        requires
            Self::fst_ok(a),
            Self::fst_ok(b),
        ensures
            r matches Ok(f) ==> Self::fst_ok(&f),
    ;

    /// Determinise.
    fn determinize(a: &Self::Fst) -> (r: FstResult<Self::Fst>)
        requires
            Self::fst_ok(a),
        ensures
            r matches Ok(f) ==> Self::fst_ok(&f),
    ;

    /// Minimise: merge the states no run tells apart.
    fn minimize(a: &Self::Fst) -> (r: FstResult<Self::Fst>)
        requires
            Self::fst_ok(a),
        ensures
            r matches Ok(f) ==> Self::fst_ok(&f),
    ;

    /// Remove epsilon transitions.
    fn eps_remove(a: &Self::Fst) -> (r: FstResult<Self::Fst>)
        requires
            Self::fst_ok(a),
        ensures
            r matches Ok(f) ==> Self::fst_ok(&f),
    ;

    /// Sort the arcs leaving each state by input label.
    fn arc_sort_input(a: &Self::Fst) -> (r: FstResult<Self::Fst>)
        requires
            Self::fst_ok(a),
        ensures
            r matches Ok(f) ==> Self::fst_ok(&f),
    ;

    /// Sort the arcs leaving each state by output label.
    fn arc_sort_output(a: &Self::Fst) -> (r: FstResult<Self::Fst>)
        requires
            Self::fst_ok(a),
        ensures
            r matches Ok(f) ==> Self::fst_ok(&f),
    ;

    /// Swap input and output labels on every arc.
    fn invert(a: &Self::Fst) -> (r: FstResult<Self::Fst>)
        requires
            Self::fst_ok(a),
        ensures
            r matches Ok(f) ==> Self::fst_ok(&f),
    ;

    /// Accepting paths, epsilons removed on both sides, at most
    /// `max_paths` of them.
    fn paths(fst: &Self::Fst, max_paths: usize) -> (r: FstResult<Vec<Path>>)
        requires
            Self::fst_ok(fst),
    ;

    /// Serialise to bytes.
    fn serialize(fst: &Self::Fst) -> (r: FstResult<Vec<u8>>)
        requires
            Self::fst_ok(fst),
    ;

    /// Deserialise from bytes; round-trips with [`serialize`](FstBackend::serialize).
    fn deserialize(bytes: &[u8]) -> (r: FstResult<Self::Fst>)
        ensures
            r matches Ok(f) ==> Self::fst_ok(&f),
    ;

    /// Number of states.
    fn num_states(fst: &Self::Fst) -> usize
        requires
            Self::fst_ok(fst),
    ;
}

/// Mutable machine under construction, yielded by [`FstBackend::builder`].
pub trait FstBuilder: Sized {
    /// The machine that [`finish`](FstBuilder::finish) yields.
    type Fst;

    /// Builders the construction methods accept (and leave behind).
    spec fn builder_ok(&self) -> bool;

    /// Add a new state, returning its id.
    fn add_state(&mut self) -> (s: StateId)
        requires
            old(self).builder_ok(),
        ensures
            final(self).builder_ok(),
    ;

    /// Set the start state. Required before [`finish`](FstBuilder::finish).
    fn set_start(&mut self, s: StateId) -> (r: FstResult<()>)
        requires
            old(self).builder_ok(),
        ensures
            final(self).builder_ok(),
    ;

    /// Mark a state as final.
    fn set_final(&mut self, s: StateId) -> (r: FstResult<()>)
        requires
            old(self).builder_ok(),
        ensures
            final(self).builder_ok(),
    ;

    /// Add an arc from `from` to `to` reading `input_label` and writing
    /// `output_label`. Either label may be [`EPS_LABEL`].
    fn add_arc(&mut self, from: StateId, input_label: Label, output_label: Label, to: StateId) -> (r: FstResult<()>)
        requires
            old(self).builder_ok(),
        ensures
            final(self).builder_ok(),
    ;

    /// Finish construction and return the machine.
    fn finish(self) -> FstResult<Self::Fst>
        requires
            self.builder_ok(),
    ;
}

} // verus!
