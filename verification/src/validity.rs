//! Validity of an SDFA as a stochastic model, and the errors of this crate.

use vstd::prelude::*;
use crate::automaton::Sdfa;
use crate::fraction::{FracValue, Fraction, frac_add, frac_zero};

verus! {

/// Errors of the gain computations.
#[derive(Debug)]
pub enum GainError {
    /// The SDFA has no initial state.
    NoInitialState,
    /// The outgoing and terminating probabilities of `state` sum to `total`, not to 1.
    InvalidProbabilitySum { state: usize, total: Fraction },
    /// Transition `index` has a probability that is not positive.
    InvalidTransitionProbability { index: usize, probability: Fraction },
    /// No state has a non-zero termination probability.
    NoTerminatingState,
    /// The expected numbers of visits need an initial state.
    NoStartState,
    /// `I - P` could not be inverted.
    NotInvertible,
    /// The entropy of the event log is zero.
    ZeroEventLogEntropy,
    /// The entropy of the SDFA is zero.
    ZeroModelEntropy,
}

/// Sum of the probabilities of the transitions among the first `k` that leave `state`.
pub open spec fn outgoing_sum(s: Sdfa, state: int, k: int) -> FracValue
    decreases k,
{
    if k <= 0 {
        frac_zero()
    } else if s.sources[k - 1] == state {
        frac_add(outgoing_sum(s, state, k - 1), s.probabilities[k - 1]@)
    } else {
        outgoing_sum(s, state, k - 1)
    }
}

/// Outgoing plus terminating probability of `state`.
pub open spec fn state_total(s: Sdfa, state: int) -> FracValue {
    frac_add(outgoing_sum(s, state, s.num_transitions() as int), s.terminating_probabilities[state]@)
}

pub open spec fn is_one_value(x: FracValue) -> bool {
    x.num == x.den
}

pub open spec fn all_states_sum_to_one(s: Sdfa) -> bool {
    forall|st: int| 0 <= st < s.num_states() ==> is_one_value(#[trigger] state_total(s, st))
}

pub open spec fn all_transitions_positive(s: Sdfa) -> bool {
    forall|i: int| 0 <= i < s.num_transitions() ==> (#[trigger] s.probabilities[i]@).num > 0
}

pub open spec fn has_terminating_state(s: Sdfa) -> bool {
    exists|st: int| 0 <= st < s.num_states() && (#[trigger] s.terminating_probabilities[st]@).num != 0
}

/// The SDFA is a valid stochastic model: it has an initial state, the
/// probabilities of every state sum to one, every transition has a positive
/// probability, and some state can terminate.
pub open spec fn is_valid(s: Sdfa) -> bool {
    &&& s.initial_state is Some
    &&& all_states_sum_to_one(s)
    &&& all_transitions_positive(s)
    &&& has_terminating_state(s)
}

/// The error that `is_valid_sdfa` reports for an SDFA: the first failing check.
pub open spec fn validity_error(s: Sdfa, e: GainError) -> bool {
    match e {
        GainError::NoInitialState => s.initial_state is None,
        GainError::InvalidProbabilitySum { state, total } => {
            &&& s.initial_state is Some
            &&& state < s.num_states()
            &&& !is_one_value(state_total(s, state as int))
            &&& total@ == state_total(s, state as int)
            &&& forall|st: int| 0 <= st < state ==> is_one_value(#[trigger] state_total(s, st))
        },
        GainError::InvalidTransitionProbability { index, probability } => {
            &&& s.initial_state is Some
            &&& all_states_sum_to_one(s)
            &&& index < s.num_transitions()
            &&& s.probabilities[index as int]@.num <= 0
            &&& probability@ == s.probabilities[index as int]@
            &&& forall|j: int| 0 <= j < index ==> (#[trigger] s.probabilities[j]@).num > 0
        },
        GainError::NoTerminatingState => {
            &&& s.initial_state is Some
            &&& all_states_sum_to_one(s)
            &&& all_transitions_positive(s)
            &&& !has_terminating_state(s)
        },
        _ => false,
    }
}

/// Checks that the SDFA is a valid stochastic model (see `is_valid`),
/// reporting the first check that fails.
pub fn is_valid_sdfa(sdfa: &Sdfa) -> (r: Result<(), GainError>)
    requires
        sdfa.wf(),
    ensures
        r is Ok <==> is_valid(*sdfa),
        r matches Err(e) ==> validity_error(*sdfa, e),
{
    if sdfa.initial_state.is_none() {
        return Err(GainError::NoInitialState);
    }
    let n = sdfa.terminating_probabilities.len();
    let m = sdfa.sources.len();
    let mut state: usize = 0;
    while state < n
        invariant
            sdfa.wf(),
            sdfa.initial_state is Some,
            n == sdfa.num_states(),
            m == sdfa.num_transitions(),
            state <= n,
            forall|st: int| 0 <= st < state ==> is_one_value(#[trigger] state_total(*sdfa, st)),
        decreases n - state,
    {
        let mut sum = Fraction::zero();
        let mut i: usize = 0;
        while i < m
            invariant
                sdfa.wf(),
                m == sdfa.num_transitions(),
                i <= m,
                sum@ == outgoing_sum(*sdfa, state as int, i as int),
            decreases m - i,
        {
            if sdfa.sources[i] == state {
                sum = sum.add(&sdfa.probabilities[i]);
            }
            i = i + 1;
        }
        sum = sum.add(&sdfa.terminating_probabilities[state]);
        if !sum.is_one() {
            assert(!is_one_value(state_total(*sdfa, state as int)));
            return Err(GainError::InvalidProbabilitySum { state, total: sum });
        }
        state = state + 1;
    }
    let mut i: usize = 0;
    while i < m
        invariant
            sdfa.wf(),
            m == sdfa.num_transitions(),
            i <= m,
            sdfa.initial_state is Some,
            all_states_sum_to_one(*sdfa),
            forall|j: int| 0 <= j < i ==> (#[trigger] sdfa.probabilities[j]@).num > 0,
        decreases m - i,
    {
        let p = &sdfa.probabilities[i];
        if p.is_zero() || p.is_negative() {
            return Err(GainError::InvalidTransitionProbability { index: i, probability: p.copy() });
        }
        i = i + 1;
    }
    let mut st: usize = 0;
    while st < n
        invariant
            sdfa.wf(),
            sdfa.initial_state is Some,
            n == sdfa.num_states(),
            m == sdfa.num_transitions(),
            st <= n,
            all_states_sum_to_one(*sdfa),
            all_transitions_positive(*sdfa),
            forall|k: int| 0 <= k < st ==> (#[trigger] sdfa.terminating_probabilities[k]@).num == 0,
        decreases n - st,
    {
        if !sdfa.terminating_probabilities[st].is_zero() {
            proof {
                assert(sdfa.terminating_probabilities[st as int]@.num != 0);
            }
            return Ok(());
        }
        st = st + 1;
    }
    Err(GainError::NoTerminatingState)
}

} // verus!
