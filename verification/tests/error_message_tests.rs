use hubullu::fst::backend::FstError;
use hubullu::fst::inflection::chain::ChainCompileError;
use hubullu::fst::inflection::slot::SlotCompileError;
use hubullu::fst::inflection::InflectionCompileError;
use hubullu::fst::lexicon::{LexiconCompileError, LexiconLookupError};
use hubullu::fst::phonrule::apply::ApplyError;
use hubullu::fst::phonrule::class::ClassCompileError;
use hubullu::fst::phonrule::context::ContextCompileError;
use hubullu::fst::phonrule::directed_replace::DirectedReplaceError;
use hubullu::fst::phonrule::replace::RewriteCompileError;
use hubullu::fst::phonrule::rule_seq::RuleSeqCompileError;

#[test]
fn lexicon_messages() {
    assert_eq!(LexiconCompileError::EmptyLexicon.message(), "lexicon compilation called with empty entry slice");
    assert_eq!(
        LexiconCompileError::NotAMorpheme { entry_name: "faren".to_string() }.message(),
        "entry 'faren' has an inflection \u{2014} only inflectionless entries are morphemes"
    );
    assert_eq!(LexiconLookupError::UnknownMorpheme { morpheme_id_label: 1048 }.message(), "no morpheme path for label 1048");
    assert_eq!(LexiconLookupError::UnknownLabel(7).message(), "lexicon output label 7 not in alphabet");
    assert_eq!(
        LexiconLookupError::AmbiguousLookup { morpheme_id_label: 0, outputs: vec!["a".to_string(), "b\"c".to_string()] }.message(),
        format!("ambiguous lexicon look-up for label 0: {:?}", vec!["a".to_string(), "b\"c".to_string()])
    );
}

#[test]
fn apply_messages_quote_their_inputs() {
    let e = ApplyError::ConvergenceLimit { iterations: 32, last_input: "ab\n".to_string() };
    assert_eq!(e.message(), "phonrule did not converge within 32 iterations (last input: \"ab\\n\")");
    assert_eq!(ApplyError::NoOutput { input: "x".to_string() }.message(), "phonrule FST produced no output for input \"x\"");
}

#[test]
fn rule_sequence_cycle_message_joins_the_path() {
    let e = RuleSeqCompileError::ApplyCycle { path: vec!["a".to_string(), "b".to_string(), "a".to_string()] };
    assert_eq!(e.message(), "apply-chain cycle detected: a -> b -> a");
    let inner = ClassCompileError::UnknownClass { referrer: "V".to_string(), target: "X".to_string() };
    assert_eq!(
        RuleSeqCompileError::Class(inner).message(),
        "class 'V' references undefined or not-yet-compiled class 'X'"
    );
}

#[test]
fn nested_errors_show_the_inner_message() {
    let e = RewriteCompileError::DirectedReplace(DirectedReplaceError::UnknownMap("to_x".to_string()));
    assert_eq!(e.message(), "directed-replace: unknown map: to_x");
    let s = InflectionCompileError::Slot(SlotCompileError::EmptyLazySlot { slot_name: "pn".to_string() });
    assert_eq!(s.message(), "lazy slot 'pn' has no morphemes matching its filter");
    let c = InflectionCompileError::Chain(ChainCompileError::EmptyConcat);
    assert_eq!(c.message(), "compose chain has an empty Concat \u{2014} ambiguous, refusing to compile");
    let k = ContextCompileError::UnknownClass { name: "C".to_string() };
    assert_eq!(k.message(), "context elem references undefined or not-yet-compiled class 'C'");
}

#[test]
fn kernel_error_messages() {
    assert_eq!(FstError::BadState(12).message(), "invalid state id: 12");
    assert_eq!(FstError::BadState(0).message(), "invalid state id: 0");
    assert_eq!(FstError::NoStart.message(), "FST has no start state");
    assert_eq!(FstError::Backend("x".to_string()).message(), "FST operation failed: x");
}
