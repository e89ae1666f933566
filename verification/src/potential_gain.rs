//! Potential gain precision and recall: the gain numerator set against the
//! entropy of the event log (precision) or of the SDFA (recall).

use vstd::prelude::*;
use crate::automaton::Sdfa;
use crate::entropy::{StochasticLanguage, entropy_eventlog, language_entropy_defined, language_entropy_terms};
use crate::fraction::{FracValue, Fraction, normalize};
use crate::fraction::is_reduced;
use crate::gain::{
    gain_defined, gain_numerator, is_gain_of, lemma_gain_of_reproducing_model, probabilities_reduced,
    reproduces,
};
use crate::logdiv::{LogRatio, lemma_same_sum_reflexive, same_sum, sums_to_zero};
use crate::model_entropy::{entropy_sdfa, sdfa_entropy_defined, sdfa_entropy_terms};
use crate::validity::{GainError, is_valid, is_valid_sdfa, validity_error};
use crate::visits::expected_visits;

verus! {

/// The default smoothing factor, `10^-6`.
pub open spec fn default_lambda_value() -> FracValue {
    normalize(1, 1_000_000)
}

/// The default smoothing factor, `10^-6`.
pub fn default_lambda() -> (r: Fraction)
    ensures
        r@ == default_lambda_value(),
{
    Fraction::new(1, 1_000_000)
}

/// The outcome of `potential_gain_precision`.
pub open spec fn is_precision_result(
    lang: StochasticLanguage,
    s: Sdfa,
    lambda: FracValue,
    r: Result<LogRatio, GainError>,
) -> bool {
    let h = language_entropy_terms(lang, lambda, lang.len() as int);
    &&& !is_valid(s) ==> (r matches Err(e) && validity_error(s, e))
    &&& is_valid(s) ==> (sums_to_zero(h) <==> (r matches Err(GainError::ZeroEventLogEntropy)))
    &&& is_valid(s) && !sums_to_zero(h) ==> (r matches Ok(v) && is_gain_of(v.numerator@, lang, s, lambda)
        && v.denominator@ == h)
}

/// The outcome of `potential_gain_recall`.
pub open spec fn is_recall_result(
    lang: StochasticLanguage,
    s: Sdfa,
    lambda: FracValue,
    r: Result<LogRatio, GainError>,
) -> bool {
    &&& !is_valid(s) ==> (r matches Err(e) && validity_error(s, e))
    &&& is_valid(s) ==> match expected_visits(s) {
        None => r matches Err(GainError::NotInvertible),
        Some(c) => {
            let h = sdfa_entropy_terms(s, lambda, c);
            &&& sums_to_zero(h) <==> (r matches Err(GainError::ZeroModelEntropy))
            &&& !sums_to_zero(h) ==> (r matches Ok(v) && is_gain_of(v.numerator@, lang, s, lambda)
                && v.denominator@ == h)
        },
    }
}

/// When the SDFA gives every trace of the log its probability in the log,
/// potential gain precision is one: its numerator, the gain, is the entropy of
/// the log, which is its denominator (or the log has zero entropy).
pub proof fn lemma_precision_of_reproducing_model(
    lang: StochasticLanguage,
    s: Sdfa,
    lambda: FracValue,
    r: Result<LogRatio, GainError>,
)
    requires
        is_precision_result(lang, s, lambda, r),
        is_valid(s),
        reproduces(s, lang),
        probabilities_reduced(lang),
        is_reduced(lambda),
    ensures
        r matches Ok(v) ==> v.numerator@ == v.denominator@,
        r matches Ok(v) ==> same_sum(v.numerator@, v.denominator@),
        r is Ok || r matches Err(GainError::ZeroEventLogEntropy),
{
    if let Ok(v) = r {
        lemma_gain_of_reproducing_model(lang, s, lambda, v.numerator@);
        lemma_same_sum_reflexive(v.denominator@);
    }
}

/// Potential gain precision: `GainNumerator(L, A) / H(L)`, where `H(L)` is the
/// entropy of the event log (the exact quotient of the two).
pub fn potential_gain_precision(event_log: &StochasticLanguage, sdfa: &Sdfa, lambda: &Fraction) -> (r: Result<LogRatio, GainError>)
    requires
        sdfa.wf(),
        is_valid(*sdfa) ==> gain_defined(*event_log, *sdfa, lambda@) && language_entropy_defined(*event_log, lambda@),
    ensures
        is_precision_result(*event_log, *sdfa, lambda@, r),
{
    match is_valid_sdfa(sdfa) {
        Err(e) => return Err(e),
        Ok(()) => {},
    }
    let num = gain_numerator(event_log, sdfa, lambda);
    let denom = entropy_eventlog(event_log, lambda);
    if denom.is_zero() {
        return Err(GainError::ZeroEventLogEntropy);
    }
    Ok(num.div(denom))
}

/// Potential gain recall: `GainNumerator(L, A) / H(A)`, where `H(A)` is the
/// entropy of the SDFA (the exact quotient of the two).
pub fn potential_gain_recall(event_log: &StochasticLanguage, sdfa: &Sdfa, lambda: &Fraction) -> (r: Result<LogRatio, GainError>)
    requires
        sdfa.wf(),
        is_valid(*sdfa) ==> gain_defined(*event_log, *sdfa, lambda@),
        is_valid(*sdfa) && expected_visits(*sdfa) is Some ==> sdfa_entropy_defined(*sdfa, lambda@),
    ensures
        is_recall_result(*event_log, *sdfa, lambda@, r),
{
    match is_valid_sdfa(sdfa) {
        Err(e) => return Err(e),
        Ok(()) => {},
    }
    let num = gain_numerator(event_log, sdfa, lambda);
    let denom = match entropy_sdfa(sdfa, lambda) {
        Err(e) => return Err(e),
        Ok(d) => d,
    };
    if denom.is_zero() {
        return Err(GainError::ZeroModelEntropy);
    }
    Ok(num.div(denom))
}

/// Potential gain precision with the default smoothing factor.
pub fn potential_gain_precision_default(event_log: &StochasticLanguage, sdfa: &Sdfa) -> (r: Result<LogRatio, GainError>)
    requires
        sdfa.wf(),
        is_valid(*sdfa) ==> gain_defined(*event_log, *sdfa, default_lambda_value())
            && language_entropy_defined(*event_log, default_lambda_value()),
    ensures
        is_precision_result(*event_log, *sdfa, default_lambda_value(), r),
{
    let lambda = default_lambda();
    potential_gain_precision(event_log, sdfa, &lambda)
}

/// Potential gain recall with the default smoothing factor.
pub fn potential_gain_recall_default(event_log: &StochasticLanguage, sdfa: &Sdfa) -> (r: Result<LogRatio, GainError>)
    requires
        sdfa.wf(),
        is_valid(*sdfa) ==> gain_defined(*event_log, *sdfa, default_lambda_value()),
        is_valid(*sdfa) && expected_visits(*sdfa) is Some ==> sdfa_entropy_defined(*sdfa, default_lambda_value()),
    ensures
        is_recall_result(*event_log, *sdfa, default_lambda_value(), r),
{
    let lambda = default_lambda();
    potential_gain_recall(event_log, sdfa, &lambda)
}

} // verus!
