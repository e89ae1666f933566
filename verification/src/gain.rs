//! The numerator of potential gain: for every trace of the log that the
//! SDFA can produce, the smaller of the entropy contributions of its
//! probability in the log and in the SDFA.

use vstd::prelude::*;
use crate::automaton::Sdfa;
use crate::entropy::{
    StochasticLanguage, entropy_calculate, entropy_terms, language_entropy_terms, one_minus,
    smoothed_entropy_computable, smoothed_entropy_defined, smoothed_entropy_terms,
};
use crate::fraction::{
    FracValue, Fraction, frac_mul, frac_one, is_reduced, lemma_normalize_den_pos, lemma_normalize_zero,
};
use crate::logdiv::{LogDiv, LogTerm};

verus! {

/// `a` if `first`, else `b`.
pub open spec fn pick(first: bool, a: Seq<LogTerm>, b: Seq<LogTerm>) -> Seq<LogTerm> {
    if first {
        a
    } else {
        b
    }
}

/// The gain terms of one trace with log probability `p1` and model
/// probability `p2`; `choice` tells which of the two values each minimum took.
pub open spec fn trace_gain_terms(p1: FracValue, p2: FracValue, lambda: FracValue, choice: (bool, bool)) -> Seq<LogTerm> {
    if p2.num == 0 {
        Seq::empty()
    } else if lambda.num == 0 {
        pick(choice.0, entropy_terms(p1), entropy_terms(p2))
    } else {
        pick(
            choice.0,
            entropy_terms(frac_mul(p1, one_minus(lambda))),
            entropy_terms(frac_mul(p2, one_minus(lambda))),
        ) + pick(choice.1, entropy_terms(frac_mul(p1, lambda)), entropy_terms(frac_mul(p2, lambda)))
    }
}

/// The gain terms of the first `k` traces of the log.
pub open spec fn gain_terms(
    lang: StochasticLanguage,
    sdfa: Sdfa,
    lambda: FracValue,
    choices: Seq<(bool, bool)>,
    k: int,
) -> Seq<LogTerm>
    decreases k,
{
    if k <= 0 {
        Seq::empty()
    } else {
        gain_terms(lang, sdfa, lambda, choices, k - 1) + trace_gain_terms(
            lang.probability(k - 1),
            sdfa.trace_probability(lang.trace(k - 1)),
            lambda,
            choices[k - 1],
        )
    }
}

/// The gain of the log against the SDFA is a sum of minima of entropy
/// contributions, each taken as the one of the two whose approximation is
/// smaller.
pub open spec fn is_gain_of(r: Seq<LogTerm>, lang: StochasticLanguage, sdfa: Sdfa, lambda: FracValue) -> bool {
    exists|choices: Seq<(bool, bool)>|
        choices.len() == lang.len() && r == gain_terms(lang, sdfa, lambda, choices, lang.len() as int)
}

pub open spec fn trace_gain_defined(p1: FracValue, p2: FracValue, lambda: FracValue) -> bool {
    p2.num != 0 ==> smoothed_entropy_defined(p1, lambda) && smoothed_entropy_defined(p2, lambda)
}

pub open spec fn gain_defined(lang: StochasticLanguage, sdfa: Sdfa, lambda: FracValue) -> bool {
    forall|i: int|
        0 <= i < lang.len() ==> trace_gain_defined(
            #[trigger] lang.probability(i),
            sdfa.trace_probability(lang.trace(i)),
            lambda,
        )
}

/// Whether the gain numerator can be computed exactly (see `gain_defined`).
pub fn gain_computable(lang: &StochasticLanguage, sdfa: &Sdfa, lambda: &Fraction) -> (r: bool)
    requires
        sdfa.wf(),
    ensures
        r == gain_defined(*lang, *sdfa, lambda@),
{
    let n = lang.traces.len();
    let mut i: usize = 0;
    while i < n
        invariant
            sdfa.wf(),
            n == lang.len(),
            i <= n,
            forall|k: int|
                0 <= k < i ==> trace_gain_defined(
                    #[trigger] lang.probability(k),
                    sdfa.trace_probability(lang.trace(k)),
                    lambda@,
                ),
        decreases n - i,
    {
        let p1 = &lang.traces[i].1;
        let p2 = sdfa.prob_of_trace(&lang.traces[i].0);
        if !p2.is_zero() && !(smoothed_entropy_computable(p1, lambda) && smoothed_entropy_computable(
            &p2,
            lambda,
        )) {
            assert(!trace_gain_defined(
                lang.probability(i as int),
                sdfa.trace_probability(lang.trace(i as int)),
                lambda@,
            ));
            return false;
        }
        i = i + 1;
    }
    true
}

/// The SDFA gives every trace of the log the probability that it has in the log.
pub open spec fn reproduces(sdfa: Sdfa, lang: StochasticLanguage) -> bool {
    forall|i: int|
        0 <= i < lang.len() ==> sdfa.trace_probability(lang.trace(i)) == #[trigger] lang.probability(i)
}

/// The probabilities of the log are fractions in lowest terms.
pub open spec fn probabilities_reduced(lang: StochasticLanguage) -> bool {
    forall|i: int| 0 <= i < lang.len() ==> is_reduced(#[trigger] lang.probability(i))
}

proof fn lemma_zero_times(p: FracValue, x: FracValue)
    requires
        p.num == 0,
        p.den > 0,
        x.den > 0,
    ensures
        frac_mul(p, x).num == 0,
{
    assert(p.den * x.den > 0) by (nonlinear_arith)
        requires
            p.den > 0,
            x.den > 0,
    ;
    lemma_normalize_zero(p.den * x.den);
}

proof fn lemma_trace_gain_of_equal(p: FracValue, lambda: FracValue, c: (bool, bool))
    requires
        is_reduced(p),
        is_reduced(lambda),
    ensures
        trace_gain_terms(p, p, lambda, c) == smoothed_entropy_terms(p, lambda),
{
    if p.num == 0 && lambda.num != 0 {
        lemma_normalize_den_pos(frac_one().num * lambda.den - lambda.num * frac_one().den, frac_one().den * lambda.den);
        lemma_zero_times(p, one_minus(lambda));
        lemma_zero_times(p, lambda);
        assert(smoothed_entropy_terms(p, lambda) =~= Seq::<LogTerm>::empty());
    }
}

proof fn lemma_gain_terms_of_reproducing(
    lang: StochasticLanguage,
    sdfa: Sdfa,
    lambda: FracValue,
    choices: Seq<(bool, bool)>,
    k: int,
)
    requires
        0 <= k <= lang.len(),
        reproduces(sdfa, lang),
        probabilities_reduced(lang),
        is_reduced(lambda),
    ensures
        gain_terms(lang, sdfa, lambda, choices, k) == language_entropy_terms(lang, lambda, k),
    decreases k,
{
    if k > 0 {
        lemma_gain_terms_of_reproducing(lang, sdfa, lambda, choices, k - 1);
        let p = lang.probability(k - 1);
        assert(sdfa.trace_probability(lang.trace(k - 1)) == p);
        lemma_trace_gain_of_equal(p, lambda, choices[k - 1]);
    }
}

/// When the SDFA gives every trace of the log its probability in the log,
/// the gain numerator equals the entropy of the log, whichever way each
/// minimum was decided.
pub proof fn lemma_gain_of_reproducing_model(
    lang: StochasticLanguage,
    sdfa: Sdfa,
    lambda: FracValue,
    g: Seq<LogTerm>,
)
    requires
        is_gain_of(g, lang, sdfa, lambda),
        reproduces(sdfa, lang),
        probabilities_reduced(lang),
        is_reduced(lambda),
    ensures
        g == language_entropy_terms(lang, lambda, lang.len() as int),
{
    let choices = choose|choices: Seq<(bool, bool)>|
        choices.len() == lang.len() && g == gain_terms(lang, sdfa, lambda, choices, lang.len() as int);
    lemma_gain_terms_of_reproducing(lang, sdfa, lambda, choices, lang.len() as int);
}

proof fn lemma_gain_terms_of_disjoint(
    lang: StochasticLanguage,
    sdfa: Sdfa,
    lambda: FracValue,
    choices: Seq<(bool, bool)>,
    k: int,
)
    requires
        0 <= k <= lang.len(),
        forall|i: int| 0 <= i < lang.len() ==> (#[trigger] sdfa.trace_probability(lang.trace(i))).num == 0,
    ensures
        gain_terms(lang, sdfa, lambda, choices, k) == Seq::<LogTerm>::empty(),
    decreases k,
{
    if k > 0 {
        lemma_gain_terms_of_disjoint(lang, sdfa, lambda, choices, k - 1);
        assert(sdfa.trace_probability(lang.trace(k - 1)).num == 0);
        assert(gain_terms(lang, sdfa, lambda, choices, k) =~= Seq::<LogTerm>::empty());
    }
}

/// When the SDFA can produce none of the traces of the log, the gain
/// numerator is the empty sum.
pub proof fn lemma_gain_of_disjoint_model(lang: StochasticLanguage, sdfa: Sdfa, lambda: FracValue, g: Seq<LogTerm>)
    requires
        is_gain_of(g, lang, sdfa, lambda),
        forall|i: int| 0 <= i < lang.len() ==> (#[trigger] sdfa.trace_probability(lang.trace(i))).num == 0,
    ensures
        g == Seq::<LogTerm>::empty(),
{
    let choices = choose|choices: Seq<(bool, bool)>|
        choices.len() == lang.len() && g == gain_terms(lang, sdfa, lambda, choices, lang.len() as int);
    lemma_gain_terms_of_disjoint(lang, sdfa, lambda, choices, lang.len() as int);
}

/// The smaller of two values, as decided by their approximations; `a_below`
/// is the outcome of that comparison.
pub fn log_div_min_by(a: &LogDiv, b: &LogDiv, a_below: bool) -> (r: LogDiv)
    ensures
        r@ == (if a_below { a@ } else { b@ }),
{
    if a_below {
        a.copy()
    } else {
        b.copy()
    }
}

/// The smaller of two values, as decided by their floating-point
/// approximations: a copy of one of them.
pub fn log_div_min(a: &LogDiv, b: &LogDiv) -> (r: LogDiv)
    ensures
        r@ == a@ || r@ == b@,
{
    let a_below = a.approximately_below(b);
    log_div_min_by(a, b, a_below)
}

/// The entropy contribution of `p1` if `first`, else that of `p2`.
fn entropy_pick(p1: &Fraction, p2: &Fraction, first: bool) -> (r: LogDiv)
    requires
        crate::entropy::entropy_defined(p1@),
        crate::entropy::entropy_defined(p2@),
    ensures
        r@ == pick(first, entropy_terms(p1@), entropy_terms(p2@)),
{
    let h1 = entropy_calculate(p1);
    let h2 = entropy_calculate(p2);
    log_div_min_by(&h1, &h2, first)
}

/// Whether the entropy contribution of `p1` is approximately below that of `p2`.
fn entropy_below(p1: &Fraction, p2: &Fraction) -> bool
    requires
        crate::entropy::entropy_defined(p1@),
        crate::entropy::entropy_defined(p2@),
{
    let h1 = entropy_calculate(p1);
    let h2 = entropy_calculate(p2);
    h1.approximately_below(&h2)
}

/// The outcomes of the comparisons that `gain_numerator` makes, trace by
/// trace: whether the log's entropy contribution is approximately below the
/// model's, for the whole probability (or its `1 - lambda` part) and for its
/// `lambda` part. A trace that the model cannot produce gets `(true, true)`,
/// and the second outcome is `true` when `lambda == 0`.
pub fn comparison_outcomes(event_log: &StochasticLanguage, sdfa: &Sdfa, lambda: &Fraction) -> (r: Vec<(bool, bool)>)
    requires
        sdfa.wf(),
        gain_defined(*event_log, *sdfa, lambda@),
    ensures
        r.len() == event_log.len(),
        forall|i: int|
            0 <= i < r.len() && sdfa.trace_probability(event_log.trace(i)).num == 0 ==> #[trigger] r[i]
                == (true, true),
        forall|i: int| 0 <= i < r.len() && lambda@.num == 0 ==> (#[trigger] r[i]).1,
{
    let n = event_log.traces.len();
    let mut out: Vec<(bool, bool)> = Vec::new();
    let mut i: usize = 0;
    while i < n
        invariant
            sdfa.wf(),
            gain_defined(*event_log, *sdfa, lambda@),
            n == event_log.len(),
            i <= n,
            out.len() == i,
            forall|k: int|
                0 <= k < i && sdfa.trace_probability(event_log.trace(k)).num == 0 ==> #[trigger] out[k]
                    == (true, true),
            forall|k: int| 0 <= k < i && lambda@.num == 0 ==> (#[trigger] out[k]).1,
        decreases n - i,
    {
        let p1 = &event_log.traces[i].1;
        let p2 = sdfa.prob_of_trace(&event_log.traces[i].0);
        proof {
            assert(trace_gain_defined(
                event_log.probability(i as int),
                sdfa.trace_probability(event_log.trace(i as int)),
                lambda@,
            ));
        }
        if p2.is_zero() {
            out.push((true, true));
        } else if lambda.is_zero() {
            out.push((entropy_below(p1, &p2), true));
        } else {
            let one_minus_lambda = Fraction::one().sub(lambda);
            let main = entropy_below(&p1.mul(&one_minus_lambda), &p2.mul(&one_minus_lambda));
            let tail = entropy_below(&p1.mul(lambda), &p2.mul(lambda));
            out.push((main, tail));
        }
        i = i + 1;
    }
    out
}

/// Numerator of potential gain, given the outcome of each comparison (see
/// `comparison_outcomes`): over the traces of the log that the SDFA can
/// produce, the sum of the entropy contributions that the outcomes pick.
pub fn gain_numerator_by(
    event_log: &StochasticLanguage,
    sdfa: &Sdfa,
    lambda: &Fraction,
    outcomes: &Vec<(bool, bool)>,
) -> (r: LogDiv)
    requires
        sdfa.wf(),
        gain_defined(*event_log, *sdfa, lambda@),
        outcomes.len() == event_log.len(),
    ensures
        r@ == gain_terms(*event_log, *sdfa, lambda@, outcomes@, event_log.len() as int),
{
    let n = event_log.traces.len();
    let mut out = LogDiv::zero();
    let mut i: usize = 0;
    while i < n
        invariant
            sdfa.wf(),
            gain_defined(*event_log, *sdfa, lambda@),
            n == event_log.len(),
            outcomes.len() == n,
            i <= n,
            out@ == gain_terms(*event_log, *sdfa, lambda@, outcomes@, i as int),
        decreases n - i,
    {
        let trace = &event_log.traces[i].0;
        let p1 = &event_log.traces[i].1;
        let p2 = sdfa.prob_of_trace(trace);
        let c = outcomes[i];
        proof {
            assert(trace_gain_defined(
                event_log.probability(i as int),
                sdfa.trace_probability(event_log.trace(i as int)),
                lambda@,
            ));
        }
        let ghost before = out@;
        if p2.is_zero() {
            proof {
                assert(out@ =~= before + Seq::<LogTerm>::empty());
            }
        } else if lambda.is_zero() {
            let m = entropy_pick(p1, &p2, c.0);
            out = out.add(&m);
        } else {
            let one_minus_lambda = Fraction::one().sub(lambda);
            let m1 = entropy_pick(&p1.mul(&one_minus_lambda), &p2.mul(&one_minus_lambda), c.0);
            let m2 = entropy_pick(&p1.mul(lambda), &p2.mul(lambda), c.1);
            out = out.add(&m1);
            out = out.add(&m2);
            proof {
                assert(out@ =~= before + (m1@ + m2@));
            }
        }
        i = i + 1;
    }
    out
}

/// Numerator of potential gain: over the traces of the log that the SDFA can
/// produce (model probability not zero), the sum of the smaller of the two
/// entropy contributions, as decided by their approximations; for
/// `lambda != 0`, of both parts of the smoothed contributions.
pub fn gain_numerator(event_log: &StochasticLanguage, sdfa: &Sdfa, lambda: &Fraction) -> (r: LogDiv)
    requires
        sdfa.wf(),
        gain_defined(*event_log, *sdfa, lambda@),
    ensures
        is_gain_of(r@, *event_log, *sdfa, lambda@),
{
    let outcomes = comparison_outcomes(event_log, sdfa, lambda);
    gain_numerator_by(event_log, sdfa, lambda, &outcomes)
}

} // verus!
