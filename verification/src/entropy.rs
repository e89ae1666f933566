//! Entropy of a finite stochastic language (the traces of an event log with
//! their relative frequencies), optionally smoothed by a factor `lambda`:
//! each probability `p` is split into `p(1 - lambda)` and `p * lambda`.

use vstd::prelude::*;
use crate::fraction::{FracValue, Fraction, frac_mul, frac_one, frac_sub};
use crate::logdiv::{LogDiv, LogTerm, n_log_n_defined};

verus! {

/// A finite stochastic language: traces (sequences of activity indices) with
/// their probabilities.
pub struct StochasticLanguage {
    pub traces: Vec<(Vec<usize>, Fraction)>,
}

impl StochasticLanguage {
    pub open spec fn len(&self) -> nat {
        self.traces@.len()
    }

    pub open spec fn trace(&self, i: int) -> Seq<usize> {
        self.traces@[i].0@
    }

    pub open spec fn probability(&self, i: int) -> FracValue {
        self.traces@[i].1@
    }
}

/// The entropy contribution `-p * log2(p)` of a probability `p`, as terms; no
/// term for `p == 0`.
pub open spec fn entropy_terms(p: FracValue) -> Seq<LogTerm> {
    if p.num == 0 {
        Seq::empty()
    } else {
        seq![LogTerm { weight: FracValue { num: -p.num, den: p.den }, argument: p }]
    }
}

/// `-p * log2(p)` can be computed exactly.
pub open spec fn entropy_defined(p: FracValue) -> bool {
    p.num == 0 || n_log_n_defined(p)
}

/// `1 - lambda`.
pub open spec fn one_minus(lambda: FracValue) -> FracValue {
    frac_sub(frac_one(), lambda)
}

/// Entropy terms of one probability under smoothing factor `lambda`: the
/// plain contribution for `lambda == 0`, otherwise the contributions of
/// `p(1 - lambda)` and of `p * lambda`.
pub open spec fn smoothed_entropy_terms(p: FracValue, lambda: FracValue) -> Seq<LogTerm> {
    if lambda.num == 0 {
        entropy_terms(p)
    } else {
        entropy_terms(frac_mul(p, one_minus(lambda))) + entropy_terms(frac_mul(p, lambda))
    }
}

pub open spec fn smoothed_entropy_defined(p: FracValue, lambda: FracValue) -> bool {
    if lambda.num == 0 {
        entropy_defined(p)
    } else {
        entropy_defined(frac_mul(p, one_minus(lambda))) && entropy_defined(frac_mul(p, lambda))
    }
}

/// Entropy terms of the first `k` traces of the language.
pub open spec fn language_entropy_terms(lang: StochasticLanguage, lambda: FracValue, k: int) -> Seq<LogTerm>
    decreases k,
{
    if k <= 0 {
        Seq::empty()
    } else {
        language_entropy_terms(lang, lambda, k - 1) + smoothed_entropy_terms(lang.probability(k - 1), lambda)
    }
}

pub open spec fn language_entropy_defined(lang: StochasticLanguage, lambda: FracValue) -> bool {
    forall|i: int| 0 <= i < lang.len() ==> smoothed_entropy_defined(#[trigger] lang.probability(i), lambda)
}

/// Whether `-p * log2(p)` can be computed exactly (see `entropy_defined`).
pub fn entropy_computable(p: &Fraction) -> (r: bool)
    ensures
        r == entropy_defined(p@),
{
    p.is_zero() || LogDiv::n_log_n(p).is_some()
}

/// Whether the smoothed entropy contribution of `p` can be computed exactly.
pub fn smoothed_entropy_computable(p: &Fraction, lambda: &Fraction) -> (r: bool)
    ensures
        r == smoothed_entropy_defined(p@, lambda@),
{
    if lambda.is_zero() {
        entropy_computable(p)
    } else {
        let one_minus_lambda = Fraction::one().sub(lambda);
        entropy_computable(&p.mul(&one_minus_lambda)) && entropy_computable(&p.mul(lambda))
    }
}

/// Whether the entropy of the language can be computed exactly (see
/// `language_entropy_defined`).
pub fn language_entropy_computable(lang: &StochasticLanguage, lambda: &Fraction) -> (r: bool)
    ensures
        r == language_entropy_defined(*lang, lambda@),
{
    let n = lang.traces.len();
    let mut i: usize = 0;
    while i < n
        invariant
            n == lang.len(),
            i <= n,
            forall|k: int| 0 <= k < i ==> smoothed_entropy_defined(#[trigger] lang.probability(k), lambda@),
        decreases n - i,
    {
        if !smoothed_entropy_computable(&lang.traces[i].1, lambda) {
            assert(!smoothed_entropy_defined(lang.probability(i as int), lambda@));
            return false;
        }
        i = i + 1;
    }
    true
}

/// Entropy contribution `-p * log2(p)` of a probability (zero for `p == 0`).
pub fn entropy_calculate(p: &Fraction) -> (r: LogDiv)
    requires
        entropy_defined(p@),
    ensures
        r@ == entropy_terms(p@),
{
    if p.is_zero() {
        LogDiv::zero()
    } else {
        let res = LogDiv::n_log_n(p);
        match res {
            Some(res) => {
                let r = LogDiv::zero().sub(&res);
                assert(r@ =~= entropy_terms(p@));
                r
            },
            None => {
                assert(false);
                LogDiv::zero()
            },
        }
    }
}

/// Entropy of a stochastic language under smoothing factor `lambda`: the sum
/// over its traces of `-p log2 p`, or, for `lambda != 0`, of
/// `-p(1-lambda) log2(p(1-lambda)) - p lambda log2(p lambda)`.
pub fn entropy_eventlog(event_log: &StochasticLanguage, lambda: &Fraction) -> (r: LogDiv)
    requires
        language_entropy_defined(*event_log, lambda@),
    ensures
        r@ == language_entropy_terms(*event_log, lambda@, event_log.len() as int),
{
    let n = event_log.traces.len();
    if lambda.is_zero() {
        let mut sum_entropy = LogDiv::zero();
        let mut i: usize = 0;
        while i < n
            invariant
                n == event_log.len(),
                i <= n,
                lambda@.num == 0,
                language_entropy_defined(*event_log, lambda@),
                sum_entropy@ == language_entropy_terms(*event_log, lambda@, i as int),
            decreases n - i,
        {
            proof {
                assert(smoothed_entropy_defined(event_log.probability(i as int), lambda@));
            }
            let h = entropy_calculate(&event_log.traces[i].1);
            sum_entropy = sum_entropy.add(&h);
            i = i + 1;
        }
        return sum_entropy;
    }
    let mut sum_entropy = LogDiv::zero();
    let one_minus_lambda = Fraction::one().sub(lambda);
    let mut i: usize = 0;
    while i < n
        invariant
            n == event_log.len(),
            i <= n,
            lambda@.num != 0,
            one_minus_lambda@ == one_minus(lambda@),
            language_entropy_defined(*event_log, lambda@),
            sum_entropy@ == language_entropy_terms(*event_log, lambda@, i as int),
        decreases n - i,
    {
        proof {
            assert(smoothed_entropy_defined(event_log.probability(i as int), lambda@));
        }
        let prob = &event_log.traces[i].1;
        let p_main = prob.mul(&one_minus_lambda);
        let h_main = entropy_calculate(&p_main);
        let p_tail = prob.mul(lambda);
        let h_tail = entropy_calculate(&p_tail);
        let ghost before = sum_entropy@;
        sum_entropy = sum_entropy.add(&h_main);
        sum_entropy = sum_entropy.add(&h_tail);
        proof {
            assert(sum_entropy@ =~= before + (h_main@ + h_tail@));
        }
        i = i + 1;
    }
    sum_entropy
}

} // verus!
