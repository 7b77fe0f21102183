//! Abstract syntax of `.hu` source files.
//!
//! Every node that comes from the source carries a [`Span`]. The tree is
//! plain data; the FST layers read the phonological and inflection parts.

use vstd::prelude::*;

use crate::span::FileId;

verus! {

/// A byte range in one source file.
#[derive(Debug, Clone, Copy, PartialEq, Eq)]
pub struct Span {
    pub file_id: FileId,
    pub start: usize,
    pub end: usize,
}

/// A node with the span it was parsed from.
#[derive(Debug, Clone, PartialEq, Eq)]
pub struct Spanned<T> {
    pub node: T,
    pub span: Span,
}

impl<T> Spanned<T> {
    /// Pair a node with its span.
    pub fn new(node: T, span: Span) -> (r: Self)
        ensures
            r.node == node,
            r.span == span,
    {
        Spanned { node, span }
    }
}

/// An identifier with its span.
pub type Ident = Spanned<String>;

/// A string literal with its span.
pub type StringLit = Spanned<String>;

/// A form template such as `` `{pres}s` ``.
#[derive(Debug, Clone, PartialEq, Eq)]
pub struct Template {
    pub segments: Vec<TemplateSegment>,
    pub span: Span,
}

/// One piece of a template.
#[derive(Debug, Clone, PartialEq, Eq)]
pub enum TemplateSegment {
    Lit(String),
    Stem(Ident),
    Slot { stem: Ident, slot: Ident },
}

/// A parsed source file.
#[derive(Debug, Clone, PartialEq, Eq)]
pub struct File {
    pub items: Vec<Spanned<Item>>,
}

/// A top-level item.
#[derive(Debug, Clone, PartialEq, Eq)]
pub enum Item {
    Use(Import),
    Reference(Import),
    Export(Export),
    TagAxis(TagAxis),
    Extend(Extend),
    Inflection(Inflection),
    Entry(Box<Entry>),
    PhonRule(PhonRule),
    Phoneme(Phoneme),
    Syllable(Syllable),
    Render(RenderConfig),
}

/// `@render` settings.
#[derive(Debug, Clone, PartialEq, Eq)]
pub struct RenderConfig {
    pub separator: Option<StringLit>,
    pub no_separator_before: Option<StringLit>,
}

/// A phoneme class declaration.
#[derive(Debug, Clone, PartialEq, Eq)]
pub struct Phoneme {
    pub name: Ident,
    pub members: Vec<PhonemeMember>,
    pub span: Span,
}

/// A member of a phoneme class: a literal or a reference to another class.
#[derive(Debug, Clone, PartialEq, Eq)]
pub enum PhonemeMember {
    Lit(StringLit),
    Ref(Ident),
}

/// A syllable structure declaration.
#[derive(Debug, Clone, PartialEq, Eq)]
pub struct Syllable {
    pub name: Ident,
    pub template: SyllableTemplate,
    pub nucleus: Ident,
    pub onset_max: Option<u32>,
    pub coda_max: Option<u32>,
    pub onset_priority: OnsetPriority,
    pub unknown: UnknownMode,
    pub unknown_overrides: Vec<(String, UnknownMode)>,
    pub span: Span,
}

/// The slot sequence of a syllable template.
#[derive(Debug, Clone, PartialEq, Eq)]
pub struct SyllableTemplate {
    pub slots: Vec<SyllableTemplateSlot>,
    pub span: Span,
}

/// One slot of a syllable template.
#[derive(Debug, Clone, PartialEq, Eq)]
pub struct SyllableTemplateSlot {
    pub class: Ident,
    pub optional: bool,
}

/// Whether ambiguous consonants go to the onset or the coda.
#[derive(Debug, Clone, Copy, PartialEq, Eq)]
pub enum OnsetPriority {
    Max,
    Min,
}

/// What to do with characters outside every phoneme class.
#[derive(Debug, Clone, Copy, PartialEq, Eq, Default)]
pub enum UnknownMode {
    Ignore,
    Skip,
    #[default]
    Warn,
    Error,
}

/// `@use` / `@reference`.
#[derive(Debug, Clone, PartialEq, Eq)]
pub struct Import {
    pub target: ImportTarget,
    pub path: StringLit,
}

/// What an import brings in.
#[derive(Debug, Clone, PartialEq, Eq)]
pub enum ImportTarget {
    Glob { alias: Option<Ident> },
    Named(Vec<ImportEntry>),
}

/// One named import, optionally renamed.
#[derive(Debug, Clone, PartialEq, Eq)]
pub struct ImportEntry {
    pub name: Ident,
    pub alias: Option<Ident>,
}

/// `@export`.
#[derive(Debug, Clone, PartialEq, Eq)]
pub struct Export {
    pub is_use: bool,
    pub target: ImportTarget,
    pub path: Option<StringLit>,
}

/// A grammatical dimension.
#[derive(Debug, Clone, PartialEq, Eq)]
pub struct TagAxis {
    pub name: Ident,
    pub role: Spanned<Role>,
    pub display: DisplayMap,
    pub index: Option<Spanned<IndexKind>>,
}

/// The role of a tag axis.
#[derive(Debug, Clone, Copy, PartialEq, Eq)]
pub enum Role {
    Inflectional,
    Classificatory,
    Structure,
}

/// How a tag axis is indexed.
#[derive(Debug, Clone, Copy, PartialEq, Eq)]
pub enum IndexKind {
    Exact,
    Fulltext,
}

/// Display names by language.
pub type DisplayMap = Vec<(Ident, StringLit)>;

/// Adds values to an existing tag axis.
#[derive(Debug, Clone, PartialEq, Eq)]
pub struct Extend {
    pub name: Ident,
    pub target_axis: Ident,
    pub values: Vec<ExtendValue>,
}

/// One value added by an `extend`.
#[derive(Debug, Clone, PartialEq, Eq)]
pub struct ExtendValue {
    pub name: Ident,
    pub display: DisplayMap,
    pub slots: Vec<Ident>,
}

/// A phonological rule: classes, maps, and a body of rewrites and applies.
#[derive(Debug, Clone, PartialEq, Eq)]
pub struct PhonRule {
    pub name: Ident,
    pub display: DisplayMap,
    pub derived_from: Option<Ident>,
    pub syllable: Option<Ident>,
    pub classes: Vec<CharClassDef>,
    pub maps: Vec<PhonMapDef>,
    pub body: Vec<PhonBodyItem>,
    pub span: Span,
}

/// One statement of a phonrule body.
#[derive(Debug, Clone, PartialEq, Eq)]
pub enum PhonBodyItem {
    Rewrite(PhonRewriteRule),
    Apply(PhonApply),
}

/// `apply other_rule` inside a phonrule body.
#[derive(Debug, Clone, PartialEq, Eq)]
pub struct PhonApply {
    pub rule: Ident,
    pub span: Span,
}

/// The rewrite statements of a body, in order.
pub open spec fn rewrites_of(body: Seq<PhonBodyItem>) -> Seq<PhonRewriteRule>
    decreases body.len(),
{
    if body.len() == 0 {
        seq![]
    } else {
        match body.last() {
            PhonBodyItem::Rewrite(r) => rewrites_of(body.drop_last()).push(r),
            PhonBodyItem::Apply(_) => rewrites_of(body.drop_last()),
        }
    }
}

/// The apply statements of a body, in order.
pub open spec fn applies_of(body: Seq<PhonBodyItem>) -> Seq<PhonApply>
    decreases body.len(),
{
    if body.len() == 0 {
        seq![]
    } else {
        match body.last() {
            PhonBodyItem::Rewrite(_) => applies_of(body.drop_last()),
            PhonBodyItem::Apply(a) => applies_of(body.drop_last()).push(a),
        }
    }
}

/// Every body item is a rewrite statement or an apply statement, so the
/// lists [`PhonRule::rewrite_rules`] and [`PhonRule::applies`] return are
/// together as long as the body.
pub proof fn lemma_body_counts(body: Seq<PhonBodyItem>)
    ensures
        rewrites_of(body).len() + applies_of(body).len() == body.len(),
    decreases body.len(),
{
    if body.len() > 0 {
        lemma_body_counts(body.drop_last());
    }
}

impl PhonRule {
    /// The rewrite statements of the body, in source order.
    pub fn rewrite_rules(&self) -> (r: Vec<&PhonRewriteRule>)
        ensures
            r@.len() == rewrites_of(self.body@).len(),
            forall|i: int| 0 <= i < r@.len() ==> *#[trigger] r@[i] == rewrites_of(self.body@)[i],
    {
        let mut out: Vec<&PhonRewriteRule> = Vec::new();
        let mut i: usize = 0;
        while i < self.body.len()
            invariant
                i <= self.body@.len(),
                out@.len() == rewrites_of(self.body@.take(i as int)).len(),
                forall|j: int| 0 <= j < out@.len() ==> *#[trigger] out@[j] == rewrites_of(self.body@.take(i as int))[j],
            decreases self.body@.len() - i,
        {
            proof {
                assert(self.body@.take(i + 1).drop_last() == self.body@.take(i as int));
            }
            match &self.body[i] {
                PhonBodyItem::Rewrite(r) => out.push(r),
                PhonBodyItem::Apply(_) => {},
            }
            i = i + 1;
        }
        proof {
            assert(self.body@.take(self.body@.len() as int) == self.body@);
        }
        out
    }

    /// The apply statements of the body, in source order.
    pub fn applies(&self) -> (r: Vec<&PhonApply>)
        ensures
            r@.len() == applies_of(self.body@).len(),
            forall|i: int| 0 <= i < r@.len() ==> *#[trigger] r@[i] == applies_of(self.body@)[i],
    {
        let mut out: Vec<&PhonApply> = Vec::new();
        let mut i: usize = 0;
        while i < self.body.len()
            invariant
                i <= self.body@.len(),
                out@.len() == applies_of(self.body@.take(i as int)).len(),
                forall|j: int| 0 <= j < out@.len() ==> *#[trigger] out@[j] == applies_of(self.body@.take(i as int))[j],
            decreases self.body@.len() - i,
        {
            proof {
                assert(self.body@.take(i + 1).drop_last() == self.body@.take(i as int));
            }
            match &self.body[i] {
                PhonBodyItem::Rewrite(_) => {},
                PhonBodyItem::Apply(a) => out.push(a),
            }
            i = i + 1;
        }
        proof {
            assert(self.body@.take(self.body@.len() as int) == self.body@);
        }
        out
    }
}

/// A character class: a list of literals, or a union of other classes.
#[derive(Debug, Clone, PartialEq, Eq)]
pub struct CharClassDef {
    pub name: Ident,
    pub body: CharClassBody,
}

/// The definition of a character class.
#[derive(Debug, Clone, PartialEq, Eq)]
pub enum CharClassBody {
    List(Vec<StringLit>),
    Union(Vec<Ident>),
}

/// A symbol-to-symbol map used on the right-hand side of rewrites.
#[derive(Debug, Clone, PartialEq, Eq)]
pub struct PhonMapDef {
    pub name: Ident,
    pub param: Ident,
    pub body: PhonMapBody,
}

/// The body of a map.
#[derive(Debug, Clone, PartialEq, Eq)]
pub enum PhonMapBody {
    Match { arms: Vec<PhonMapArm>, else_arm: Option<PhonMapElse> },
}

/// `"from" -> result`.
#[derive(Debug, Clone, PartialEq, Eq)]
pub struct PhonMapArm {
    pub from: StringLit,
    pub to: PhonMapResult,
}

/// The result of a map arm: a literal or the map's parameter.
#[derive(Debug, Clone, PartialEq, Eq)]
pub enum PhonMapResult {
    Literal(StringLit),
    Var(Ident),
}

/// The fallback of a map.
#[derive(Debug, Clone, PartialEq, Eq)]
pub enum PhonMapElse {
    Literal(StringLit),
    Var(Ident),
}

/// `from -> to / left _ right`.
#[derive(Debug, Clone, PartialEq, Eq)]
pub struct PhonRewriteRule {
    pub from: PhonPattern,
    pub to: PhonReplacement,
    pub context: Option<PhonContext>,
    pub span: Span,
}

/// The left-hand side of a rewrite.
#[derive(Debug, Clone, PartialEq, Eq)]
pub enum PhonPattern {
    Class(Ident),
    Literal(StringLit),
    Range(Vec<PhonContextElem>),
}

/// The right-hand side of a rewrite.
#[derive(Debug, Clone, PartialEq, Eq)]
pub enum PhonReplacement {
    MapCall(Ident),
    Literal(StringLit),
    Null,
}

/// The environment of a rewrite.
#[derive(Debug, Clone, PartialEq, Eq)]
pub struct PhonContext {
    pub left: Vec<PhonContextElem>,
    pub right: Vec<PhonContextElem>,
}

/// One element of a context or pattern sequence.
#[derive(Debug, PartialEq, Eq)]
pub enum PhonContextElem {
    Boundary,
    WordStart,
    WordEnd,
    Atom(PhonAtom, Quantifier),
    SylHead,
    SylTail,
    SylIndex(SylSpec),
}

/// A quantifiable atom.
#[derive(Debug, PartialEq, Eq)]
pub enum PhonAtom {
    Class(Ident),
    NegClass(Ident),
    Literal(StringLit),
    Wildcard,
    Alt(Vec<PhonContextElem>),
    SylBlock(Vec<PhonContextElem>),
}

impl Clone for PhonContextElem {
    fn clone(&self) -> (r: Self)
        decreases self,
    {
        match self {
            PhonContextElem::Boundary => PhonContextElem::Boundary,
            PhonContextElem::WordStart => PhonContextElem::WordStart,
            PhonContextElem::WordEnd => PhonContextElem::WordEnd,
            PhonContextElem::SylHead => PhonContextElem::SylHead,
            PhonContextElem::SylTail => PhonContextElem::SylTail,
            PhonContextElem::SylIndex(s) => PhonContextElem::SylIndex(s.clone()),
            PhonContextElem::Atom(atom, q) => {
                let a = match atom {
                    PhonAtom::Class(n) => PhonAtom::Class(n.clone()),
                    PhonAtom::NegClass(n) => PhonAtom::NegClass(n.clone()),
                    PhonAtom::Literal(l) => PhonAtom::Literal(l.clone()),
                    PhonAtom::Wildcard => PhonAtom::Wildcard,
                    PhonAtom::Alt(elems) => {
                        let mut out: Vec<PhonContextElem> = Vec::new();
                        proof {
                            assert forall|j: int| 0 <= j < elems@.len() implies decreases_to!(self => #[trigger] elems@[j]) by {
                                assert(decreases_to!(self => *elems));
                                assert(decreases_to!(*elems => elems@));
                                assert(decreases_to!(elems@ => elems@[j]));
                            }
                        }
                        let mut i: usize = 0;
                        while i < elems.len()
                            invariant
                                i <= elems@.len(),
                                forall|j: int| 0 <= j < elems@.len() ==> decreases_to!(self => #[trigger] elems@[j]),
                            decreases elems@.len() - i,
                        {
                            proof {
                                assert(decreases_to!(self => elems@[i as int]));
                            }
                            out.push(elems[i].clone());
                            i = i + 1;
                        }
                        PhonAtom::Alt(out)
                    },
                    PhonAtom::SylBlock(elems) => {
                        let mut out: Vec<PhonContextElem> = Vec::new();
                        proof {
                            assert forall|j: int| 0 <= j < elems@.len() implies decreases_to!(self => #[trigger] elems@[j]) by {
                                assert(decreases_to!(self => *elems));
                                assert(decreases_to!(*elems => elems@));
                                assert(decreases_to!(elems@ => elems@[j]));
                            }
                        }
                        let mut i: usize = 0;
                        while i < elems.len()
                            invariant
                                i <= elems@.len(),
                                forall|j: int| 0 <= j < elems@.len() ==> decreases_to!(self => #[trigger] elems@[j]),
                            decreases elems@.len() - i,
                        {
                            proof {
                                assert(decreases_to!(self => elems@[i as int]));
                            }
                            out.push(elems[i].clone());
                            i = i + 1;
                        }
                        PhonAtom::SylBlock(out)
                    },
                };
                PhonContextElem::Atom(a, *q)
            },
        }
    }
}

impl Clone for PhonAtom {
    fn clone(&self) -> (r: Self) {
        match self {
            PhonAtom::Class(n) => PhonAtom::Class(n.clone()),
            PhonAtom::NegClass(n) => PhonAtom::NegClass(n.clone()),
            PhonAtom::Literal(l) => PhonAtom::Literal(l.clone()),
            PhonAtom::Wildcard => PhonAtom::Wildcard,
            PhonAtom::Alt(elems) => {
                let mut out: Vec<PhonContextElem> = Vec::new();
                let mut i: usize = 0;
                while i < elems.len()
                    invariant
                        i <= elems@.len(),
                    decreases elems@.len() - i,
                {
                    out.push(elems[i].clone());
                    i = i + 1;
                }
                PhonAtom::Alt(out)
            },
            PhonAtom::SylBlock(elems) => {
                let mut out: Vec<PhonContextElem> = Vec::new();
                let mut i: usize = 0;
                while i < elems.len()
                    invariant
                        i <= elems@.len(),
                    decreases elems@.len() - i,
                {
                    out.push(elems[i].clone());
                    i = i + 1;
                }
                PhonAtom::SylBlock(out)
            },
        }
    }
}

/// How many times an atom repeats.
#[derive(Debug, Clone, Copy, PartialEq, Eq)]
pub enum Quantifier {
    Exact(u32),
    Star,
    Plus,
    Question,
    AtLeast(u32),
    Range(u32, u32),
}

/// A syllable index or range.
#[derive(Debug, Clone, PartialEq, Eq)]
pub enum SylSpec {
    Index(i64),
    Range { lo: Option<i64>, hi: Option<i64> },
}

/// An inflection class.
#[derive(Debug, Clone, PartialEq, Eq)]
pub struct Inflection {
    pub name: Ident,
    pub display: DisplayMap,
    pub axes: Vec<Ident>,
    pub required_stems: Vec<StemReq>,
    pub body: InflectionBody,
}

/// A stem an inflection requires, optionally only under some tags.
#[derive(Debug, Clone, PartialEq, Eq)]
pub struct StemReq {
    pub name: Ident,
    pub constraint: Vec<TagCondition>,
}

/// Rule table or slot composition.
#[derive(Debug, Clone, PartialEq, Eq)]
pub enum InflectionBody {
    Rules(RulesBody),
    Compose(ComposeBody),
}

/// A rule table.
#[derive(Debug, Clone, PartialEq, Eq)]
pub struct RulesBody {
    pub apply: Option<ApplyExpr>,
    pub rules: Vec<InflectionRule>,
}

/// Phonrules wrapped around every cell of a rule table.
#[derive(Debug, PartialEq, Eq)]
pub enum ApplyExpr {
    Cell,
    PhonApply { rule: Ident, inner: Box<ApplyExpr> },
}

impl Clone for ApplyExpr {
    fn clone(&self) -> (r: Self)
        decreases self,
    {
        match self {
            ApplyExpr::Cell => ApplyExpr::Cell,
            ApplyExpr::PhonApply { rule, inner } => ApplyExpr::PhonApply {
                rule: rule.clone(),
                inner: Box::new((**inner).clone()),
            },
        }
    }
}

/// A slot composition.
#[derive(Debug, Clone, PartialEq, Eq)]
pub struct ComposeBody {
    pub chain: ComposeExpr,
    pub slots: Vec<SlotDef>,
    pub overrides: Vec<InflectionRule>,
}

/// The chain of a slot composition.
#[derive(Debug, PartialEq, Eq)]
pub enum ComposeExpr {
    Slot { name: Ident, quantifier: SlotQuantifier },
    Concat(Vec<ComposeExpr>),
    PhonApply { rule: Ident, inner: Box<ComposeExpr> },
}

impl Clone for ComposeExpr {
    fn clone(&self) -> (r: Self)
        decreases self,
    {
        match self {
            ComposeExpr::Slot { name, quantifier } => ComposeExpr::Slot {
                name: name.clone(),
                quantifier: *quantifier,
            },
            ComposeExpr::Concat(parts) => {
                let mut out: Vec<ComposeExpr> = Vec::new();
                proof {
                    assert forall|j: int| 0 <= j < parts@.len() implies decreases_to!(self => #[trigger] parts@[j]) by {
                        assert(decreases_to!(self => *parts));
                        assert(decreases_to!(*parts => parts@));
                        assert(decreases_to!(parts@ => parts@[j]));
                    }
                }
                let mut i: usize = 0;
                while i < parts.len()
                    invariant
                        i <= parts@.len(),
                        forall|j: int| 0 <= j < parts@.len() ==> decreases_to!(self => #[trigger] parts@[j]),
                    decreases parts@.len() - i,
                {
                    proof {
                        assert(decreases_to!(self => parts@[i as int]));
                    }
                    out.push(parts[i].clone());
                    i = i + 1;
                }
                ComposeExpr::Concat(out)
            },
            ComposeExpr::PhonApply { rule, inner } => ComposeExpr::PhonApply {
                rule: rule.clone(),
                inner: Box::new((**inner).clone()),
            },
        }
    }
}

/// How many times a slot may be filled.
#[derive(Debug, Clone, Copy, PartialEq, Eq)]
pub enum SlotQuantifier {
    One,
    ZeroOrOne,
    ZeroOrMore,
    OneOrMore,
    Bounded { min: u32, max: u32 },
}

/// A slot of a composition.
#[derive(Debug, Clone, PartialEq, Eq)]
pub struct SlotDef {
    pub name: Ident,
    pub body: SlotBody,
    pub kind: SlotKind,
    pub span: Span,
}

/// How a slot is filled: from morpheme entries, or by listed rules.
#[derive(Debug, Clone, PartialEq, Eq)]
pub enum SlotBody {
    Lazy(LazyMatching),
    Eager(Vec<InflectionRule>),
}

/// The kind of a slot.
#[derive(Debug, Clone, Copy, PartialEq, Eq)]
pub enum SlotKind {
    Normal,
}

/// Which morpheme entries fill a lazy slot.
#[derive(Debug, Clone, PartialEq, Eq)]
pub enum LazyMatching {
    CatchAll,
    Filter(Vec<AxisFilter>),
}

/// A condition on one tag axis of a morpheme.
#[derive(Debug, Clone, PartialEq, Eq)]
pub struct AxisFilter {
    pub axis: Ident,
    pub constraint: AxisConstraint,
}

/// What an axis filter asks of the axis.
#[derive(Debug, Clone, PartialEq, Eq)]
pub enum AxisConstraint {
    Any,
}

/// `[cond, ...] -> rhs`.
#[derive(Debug, Clone, PartialEq, Eq)]
pub struct InflectionRule {
    pub condition: TagConditionList,
    pub rhs: Spanned<RuleRhs>,
}

/// A list of tag conditions, or the wildcard `_`.
#[derive(Debug, Clone, PartialEq, Eq)]
pub struct TagConditionList {
    pub conditions: Vec<TagCondition>,
    pub wildcard: bool,
    pub span: Span,
}

/// `axis=value`.
#[derive(Debug, Clone, PartialEq, Eq)]
pub struct TagCondition {
    pub axis: Ident,
    pub value: Ident,
}

/// The right-hand side of an inflection rule.
#[derive(Debug, PartialEq, Eq)]
pub enum RuleRhs {
    Template(Template),
    Null,
    Delegate(Delegate),
    PhonApply { rule: Ident, inner: Box<Spanned<RuleRhs>> },
}

impl Clone for RuleRhs {
    fn clone(&self) -> (r: Self)
        decreases self,
    {
        match self {
            RuleRhs::Template(t) => RuleRhs::Template(t.clone()),
            RuleRhs::Null => RuleRhs::Null,
            RuleRhs::Delegate(d) => RuleRhs::Delegate(d.clone()),
            RuleRhs::PhonApply { rule, inner } => RuleRhs::PhonApply {
                rule: rule.clone(),
                inner: Box::new(Spanned { node: inner.node.clone(), span: inner.span }),
            },
        }
    }
}

/// Delegation to another inflection.
#[derive(Debug, Clone, PartialEq, Eq)]
pub struct Delegate {
    pub target: Ident,
    pub tags: Vec<DelegateTag>,
    pub stem_mapping: Vec<StemMapping>,
}

/// A tag passed to a delegate.
#[derive(Debug, Clone, PartialEq, Eq)]
pub enum DelegateTag {
    Fixed(TagCondition),
    PassThrough(Ident),
}

/// Maps a stem of the delegate to a stem or literal of the caller.
#[derive(Debug, Clone, PartialEq, Eq)]
pub struct StemMapping {
    pub target_stem: Ident,
    pub source: StemSource,
}

/// Where a delegated stem comes from.
#[derive(Debug, Clone, PartialEq, Eq)]
pub enum StemSource {
    Stem(Ident),
    Literal(StringLit),
}

/// A dictionary entry.
#[derive(Debug, Clone, PartialEq, Eq)]
pub struct Entry {
    pub name: Ident,
    pub headword: Headword,
    pub tags: Vec<TagCondition>,
    pub stems: Vec<StemDef>,
    pub inflection: Option<EntryInflection>,
    pub meaning: MeaningDef,
    pub forms_override: Vec<InflectionRule>,
    pub etymology: Option<Etymology>,
    pub examples: Vec<Example>,
    pub is_peripheral: bool,
}

/// The headword of an entry.
#[derive(Debug, Clone, PartialEq, Eq)]
pub enum Headword {
    Simple(StringLit),
    MultiScript(Vec<(Ident, StringLit)>),
}

/// `name: "value"` in a stems block.
#[derive(Debug, Clone, PartialEq, Eq)]
pub struct StemDef {
    pub name: Ident,
    pub value: StringLit,
}

/// How an entry inflects.
#[derive(Debug, Clone, PartialEq, Eq)]
pub enum EntryInflection {
    Class(Ident),
    Inline(InlineInflection),
}

/// An inflection written inside an entry.
#[derive(Debug, Clone, PartialEq, Eq)]
pub struct InlineInflection {
    pub axes: Vec<Ident>,
    pub body: InflectionBody,
}

/// One meaning, or several named ones.
#[derive(Debug, Clone, PartialEq, Eq)]
pub enum MeaningDef {
    Single(StringLit),
    Multiple(Vec<MeaningEntry>),
}

/// A named meaning.
#[derive(Debug, Clone, PartialEq, Eq)]
pub struct MeaningEntry {
    pub ident: Ident,
    pub text: StringLit,
}

/// Etymology of an entry.
#[derive(Debug, Clone, PartialEq, Eq)]
pub struct Etymology {
    pub proto: Option<StringLit>,
    pub cognates: Vec<Cognate>,
    pub derived_from: Option<EntryRef>,
    pub note: Option<StringLit>,
}

/// A cognate entry with a note.
#[derive(Debug, Clone, PartialEq, Eq)]
pub struct Cognate {
    pub entry: EntryRef,
    pub note: StringLit,
}

/// An example sentence.
#[derive(Debug, Clone, PartialEq, Eq)]
pub struct Example {
    pub tokens: Vec<Token>,
    pub translation: StringLit,
}

/// A token of an example or a `.hut` file.
#[derive(Debug, PartialEq, Eq)]
pub enum Token {
    Ref(EntryRef),
    Lit(StringLit),
    Glue,
    Newline,
    Tag { name: String, attrs: Vec<(String, String)>, children: Vec<Token>, span: Span },
    SelfClosingTag { name: String, attrs: Vec<(String, String)>, span: Span },
    PhonCall { rule: Ident, inner: Vec<Token>, span: Span },
    ApplyBlock { rule: Ident, inner: Vec<Token>, span: Span },
}

impl Clone for Token {
    fn clone(&self) -> (r: Self)
        decreases self,
    {
        match self {
            Token::Ref(e) => Token::Ref(e.clone()),
            Token::Lit(l) => Token::Lit(l.clone()),
            Token::Glue => Token::Glue,
            Token::Newline => Token::Newline,
            Token::Tag { name, attrs, children, span } => {
                let mut out: Vec<Token> = Vec::new();
                proof {
                    assert forall|j: int| 0 <= j < children@.len() implies decreases_to!(self => #[trigger] children@[j]) by {
                        assert(decreases_to!(self => *children));
                        assert(decreases_to!(*children => children@));
                        assert(decreases_to!(children@ => children@[j]));
                    }
                }
                let mut i: usize = 0;
                while i < children.len()
                    invariant
                        i <= children@.len(),
                        forall|j: int| 0 <= j < children@.len() ==> decreases_to!(self => #[trigger] children@[j]),
                    decreases children@.len() - i,
                {
                    proof {
                        assert(decreases_to!(self => children@[i as int]));
                    }
                    out.push(children[i].clone());
                    i = i + 1;
                }
                Token::Tag { name: name.clone(), attrs: attrs.clone(), children: out, span: *span }
            },
            Token::SelfClosingTag { name, attrs, span } => Token::SelfClosingTag {
                name: name.clone(),
                attrs: attrs.clone(),
                span: *span,
            },
            Token::PhonCall { rule, inner, span } => {
                let mut out: Vec<Token> = Vec::new();
                proof {
                    assert forall|j: int| 0 <= j < inner@.len() implies decreases_to!(self => #[trigger] inner@[j]) by {
                        assert(decreases_to!(self => *inner));
                        assert(decreases_to!(*inner => inner@));
                        assert(decreases_to!(inner@ => inner@[j]));
                    }
                }
                let mut i: usize = 0;
                while i < inner.len()
                    invariant
                        i <= inner@.len(),
                        forall|j: int| 0 <= j < inner@.len() ==> decreases_to!(self => #[trigger] inner@[j]),
                    decreases inner@.len() - i,
                {
                    proof {
                        assert(decreases_to!(self => inner@[i as int]));
                    }
                    out.push(inner[i].clone());
                    i = i + 1;
                }
                Token::PhonCall { rule: rule.clone(), inner: out, span: *span }
            },
            Token::ApplyBlock { rule, inner, span } => {
                let mut out: Vec<Token> = Vec::new();
                proof {
                    assert forall|j: int| 0 <= j < inner@.len() implies decreases_to!(self => #[trigger] inner@[j]) by {
                        assert(decreases_to!(self => *inner));
                        assert(decreases_to!(*inner => inner@));
                        assert(decreases_to!(inner@ => inner@[j]));
                    }
                }
                let mut i: usize = 0;
                while i < inner.len()
                    invariant
                        i <= inner@.len(),
                        forall|j: int| 0 <= j < inner@.len() ==> decreases_to!(self => #[trigger] inner@[j]),
                    decreases inner@.len() - i,
                {
                    proof {
                        assert(decreases_to!(self => inner@[i as int]));
                    }
                    out.push(inner[i].clone());
                    i = i + 1;
                }
                Token::ApplyBlock { rule: rule.clone(), inner: out, span: *span }
            },
        }
    }
}

/// A parsed `.hut` token-list file.
#[derive(Debug, Clone, PartialEq, Eq)]
pub struct HutFile {
    pub references: Vec<Import>,
    pub uses: Vec<Import>,
    pub apply_chain: Vec<Ident>,
    pub tokens: Vec<Token>,
    pub inline_items: Vec<Spanned<Item>>,
}

/// A reference to an entry, optionally to one meaning, form or stem.
#[derive(Debug, Clone, PartialEq, Eq)]
pub struct EntryRef {
    pub namespace: Vec<Ident>,
    pub entry_id: Ident,
    pub meaning: Option<Ident>,
    pub form_spec: Option<TagConditionList>,
    pub stem_spec: Option<Ident>,
    pub span: Span,
}

} // verus!
