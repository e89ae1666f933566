//! Entropy of the stochastic language of an SDFA: every transition and
//! every termination contributes `-p log2 p`, weighted by the expected number
//! of visits to its state.

use vstd::prelude::*;
use crate::automaton::Sdfa;
use crate::entropy::{
    entropy_calculate, entropy_computable, entropy_defined, entropy_terms, one_minus, smoothed_entropy_computable,
    smoothed_entropy_defined,
};
use crate::fraction::{FracValue, Fraction, frac_mul, is_reduced};
use crate::logdiv::{LogDiv, LogTerm, scale_terms};
use crate::matrix::vector_view;
use crate::validity::{GainError, is_valid, is_valid_sdfa, validity_error};
use crate::visits::{c_s, expected_visits, solves_visits_equation};

verus! {

/// Entropy terms of the termination of state `st`, weighted by `c[st]`.
pub open spec fn state_term(s: Sdfa, lambda: FracValue, c: Seq<FracValue>, st: int) -> Seq<LogTerm> {
    let t = s.terminating_probabilities[st]@;
    if t.num == 0 {
        Seq::empty()
    } else if lambda.num == 0 {
        scale_terms(entropy_terms(t), c[st])
    } else {
        scale_terms(entropy_terms(frac_mul(t, one_minus(lambda))), c[st]) + scale_terms(
            entropy_terms(frac_mul(t, lambda)),
            c[st],
        )
    }
}

/// Termination terms of the first `k` states.
pub open spec fn termination_terms(s: Sdfa, lambda: FracValue, c: Seq<FracValue>, k: int) -> Seq<LogTerm>
    decreases k,
{
    if k <= 0 {
        Seq::empty()
    } else {
        termination_terms(s, lambda, c, k - 1) + state_term(s, lambda, c, k - 1)
    }
}

/// Entropy terms of transition `i`, weighted by the visits of its source.
pub open spec fn transition_term(s: Sdfa, c: Seq<FracValue>, i: int) -> Seq<LogTerm> {
    let p = s.probabilities[i]@;
    if p.num == 0 {
        Seq::empty()
    } else {
        scale_terms(entropy_terms(p), c[s.sources[i] as int])
    }
}

/// Transition terms of the first `k` transitions.
pub open spec fn transition_terms(s: Sdfa, c: Seq<FracValue>, k: int) -> Seq<LogTerm>
    decreases k,
{
    if k <= 0 {
        Seq::empty()
    } else {
        transition_terms(s, c, k - 1) + transition_term(s, c, k - 1)
    }
}

/// Entropy of the SDFA given the expected numbers of visits `c`: the
/// transition terms followed by the termination terms.
pub open spec fn sdfa_entropy_terms(s: Sdfa, lambda: FracValue, c: Seq<FracValue>) -> Seq<LogTerm> {
    transition_terms(s, c, s.num_transitions() as int) + termination_terms(s, lambda, c, s.num_states() as int)
}

/// Every entropy contribution that `entropy_sdfa` computes can be computed exactly.
pub open spec fn sdfa_entropy_defined(s: Sdfa, lambda: FracValue) -> bool {
    &&& forall|st: int|
        0 <= st < s.num_states() ==> smoothed_entropy_defined(#[trigger] s.terminating_probabilities[st]@, lambda)
    &&& forall|i: int| 0 <= i < s.num_transitions() ==> entropy_defined(#[trigger] s.probabilities[i]@)
}

/// Whether the entropy of the SDFA can be computed exactly (see
/// `sdfa_entropy_defined`).
pub fn sdfa_entropy_computable(sdfa: &Sdfa, lambda: &Fraction) -> (r: bool)
    requires
        sdfa.wf(),
    ensures
        r == sdfa_entropy_defined(*sdfa, lambda@),
{
    let n = sdfa.terminating_probabilities.len();
    let mut st: usize = 0;
    while st < n
        invariant
            sdfa.wf(),
            n == sdfa.num_states(),
            st <= n,
            forall|k: int|
                0 <= k < st ==> smoothed_entropy_defined(#[trigger] sdfa.terminating_probabilities[k]@, lambda@),
        decreases n - st,
    {
        if !smoothed_entropy_computable(&sdfa.terminating_probabilities[st], lambda) {
            assert(!smoothed_entropy_defined(sdfa.terminating_probabilities[st as int]@, lambda@));
            return false;
        }
        st = st + 1;
    }
    let m = sdfa.sources.len();
    let mut i: usize = 0;
    while i < m
        invariant
            sdfa.wf(),
            m == sdfa.num_transitions(),
            n == sdfa.num_states(),
            forall|k: int|
                0 <= k < n ==> smoothed_entropy_defined(#[trigger] sdfa.terminating_probabilities[k]@, lambda@),
            i <= m,
            forall|k: int| 0 <= k < i ==> entropy_defined(#[trigger] sdfa.probabilities[k]@),
        decreases m - i,
    {
        if !entropy_computable(&sdfa.probabilities[i]) {
            assert(!entropy_defined(sdfa.probabilities[i as int]@));
            return false;
        }
        i = i + 1;
    }
    true
}

/// The expected numbers of visits of the SDFA's states exist, one for each
/// state, each a fraction in lowest terms, and they solve `c (I - P) = e_{s0}`.
pub open spec fn visits_known(s: Sdfa) -> bool {
    &&& expected_visits(s) is Some
    &&& expected_visits(s)->0.len() == s.num_states()
    &&& forall|l: int| 0 <= l < s.num_states() ==> is_reduced(#[trigger] expected_visits(s)->0[l])
    &&& solves_visits_equation(s, expected_visits(s)->0)
}

/// The outcome of `entropy_sdfa` for the SDFA.
pub open spec fn is_sdfa_entropy_result(s: Sdfa, lambda: FracValue, r: Result<LogDiv, GainError>) -> bool {
    &&& r is Ok ==> visits_known(s)
    &&& !is_valid(s) ==> (r matches Err(e) && validity_error(s, e))
    &&& is_valid(s) ==> match expected_visits(s) {
        None => r matches Err(GainError::NotInvertible),
        Some(c) => r matches Ok(v) && v@ == sdfa_entropy_terms(s, lambda, c),
    }
}

/// Entropy of an SDFA: checks validity, computes the expected visits, and sums
/// the weighted entropy contributions of transitions and terminations; for
/// `lambda != 0` each termination probability `t` contributes through
/// `t(1 - lambda)` and `t * lambda`.
pub fn entropy_sdfa(sdfa: &Sdfa, lambda: &Fraction) -> (r: Result<LogDiv, GainError>)
    requires
        sdfa.wf(),
        is_valid(*sdfa) && expected_visits(*sdfa) is Some ==> sdfa_entropy_defined(*sdfa, lambda@),
    ensures
        is_sdfa_entropy_result(*sdfa, lambda@, r),
{
    match is_valid_sdfa(sdfa) {
        Err(e) => return Err(e),
        Ok(()) => {},
    }
    let n = sdfa.terminating_probabilities.len();
    let m = sdfa.sources.len();
    let c = match c_s(sdfa) {
        Err(e) => return Err(e),
        Ok(c) => c,
    };
    let ghost cv = vector_view(c@);
    proof {
        assert(expected_visits(*sdfa) == Some(cv));
        assert(cv.len() == n);
    }
    let lambda_zero = lambda.is_zero();
    let one_minus_lambda = Fraction::one().sub(lambda);
    let mut term_entropy = LogDiv::zero();
    let mut state: usize = 0;
    while state < n
        invariant
            sdfa.wf(),
            sdfa_entropy_defined(*sdfa, lambda@),
            n == sdfa.num_states(),
            c.len() == n,
            cv == vector_view(c@),
            lambda_zero == (lambda@.num == 0),
            one_minus_lambda@ == one_minus(lambda@),
            state <= n,
            term_entropy@ == termination_terms(*sdfa, lambda@, cv, state as int),
        decreases n - state,
    {
        let term_prob = &sdfa.terminating_probabilities[state];
        proof {
            assert(smoothed_entropy_defined(sdfa.terminating_probabilities[state as int]@, lambda@));
            assert(cv[state as int] == c[state as int]@);
        }
        if !term_prob.is_zero() {
            let ghost before = term_entropy@;
            if lambda_zero {
                let ent = entropy_calculate(term_prob).scale(&c[state]);
                term_entropy = term_entropy.add(&ent);
            } else {
                let p_term_main = term_prob.mul(&one_minus_lambda);
                let p_term_tail = term_prob.mul(lambda);
                let ent_main = entropy_calculate(&p_term_main).scale(&c[state]);
                term_entropy = term_entropy.add(&ent_main);
                let ent_tail = entropy_calculate(&p_term_tail).scale(&c[state]);
                term_entropy = term_entropy.add(&ent_tail);
                proof {
                    assert(term_entropy@ =~= before + (ent_main@ + ent_tail@));
                }
            }
        }
        state = state + 1;
    }
    let mut trans_entropy = LogDiv::zero();
    let mut i: usize = 0;
    while i < m
        invariant
            sdfa.wf(),
            sdfa_entropy_defined(*sdfa, lambda@),
            n == sdfa.num_states(),
            m == sdfa.num_transitions(),
            c.len() == n,
            cv == vector_view(c@),
            i <= m,
            trans_entropy@ == transition_terms(*sdfa, cv, i as int),
        decreases m - i,
    {
        let prob = &sdfa.probabilities[i];
        proof {
            assert(entropy_defined(sdfa.probabilities[i as int]@));
            assert(sdfa.sources[i as int] < n);
            assert(cv[sdfa.sources[i as int] as int] == c[sdfa.sources[i as int] as int]@);
        }
        if !prob.is_zero() {
            let ent = entropy_calculate(prob).scale(&c[sdfa.sources[i]]);
            trans_entropy = trans_entropy.add(&ent);
        }
        i = i + 1;
    }
    Ok(trans_entropy.add(&term_entropy))
}

} // verus!
