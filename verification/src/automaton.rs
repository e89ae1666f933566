//! Stochastic deterministic finite automata (SDFA): states are numbered
//! `0..n`; transition `i` goes from `sources[i]` to `targets[i]` on activity
//! `activities[i]` with probability `probabilities[i]`; state `s` terminates
//! with probability `terminating_probabilities[s]`. Transitions are sorted by
//! (source, activity), strictly, which makes the automaton deterministic.

use vstd::prelude::*;
use crate::fraction::{FracValue, Fraction, frac_mul, frac_one, frac_zero};

verus! {

pub struct Sdfa {
    pub initial_state: Option<usize>,
    pub sources: Vec<usize>,
    pub targets: Vec<usize>,
    pub activities: Vec<usize>,
    pub probabilities: Vec<Fraction>,
    pub terminating_probabilities: Vec<Fraction>,
}

/// Lexicographic order on (source, activity) keys.
pub open spec fn key_less(s1: int, a1: int, s2: int, a2: int) -> bool {
    s1 < s2 || (s1 == s2 && a1 < a2)
}

impl Sdfa {
    pub open spec fn num_states(&self) -> nat {
        self.terminating_probabilities@.len()
    }

    pub open spec fn num_transitions(&self) -> nat {
        self.sources@.len()
    }

    pub open spec fn wf(&self) -> bool {
        &&& self.targets.len() == self.sources.len()
        &&& self.activities.len() == self.sources.len()
        &&& self.probabilities.len() == self.sources.len()
        &&& forall|i: int| 0 <= i < self.sources.len() ==> #[trigger] self.sources[i] < self.num_states()
        &&& forall|i: int| 0 <= i < self.sources.len() ==> #[trigger] self.targets[i] < self.num_states()
        &&& (self.initial_state matches Some(s) ==> s < self.num_states())
        &&& forall|i: int, j: int|
            #![trigger self.sources[i], self.sources[j]]
            0 <= i < j < self.sources.len() ==> key_less(
                self.sources[i] as int,
                self.activities[i] as int,
                self.sources[j] as int,
                self.activities[j] as int,
            )
    }

    pub open spec fn has_transition(&self, state: int, activity: int) -> bool {
        exists|i: int|
            0 <= i < self.sources.len() && self.sources[i] == state && self.activities[i] == activity
    }

    /// The transition leaving `state` on `activity`, if there is one.
    pub open spec fn transition(&self, state: int, activity: int) -> Option<int> {
        if self.has_transition(state, activity) {
            Some(
                choose|i: int|
                    0 <= i < self.sources.len() && self.sources[i] == state && self.activities[i]
                        == activity,
            )
        } else {
            None
        }
    }

    /// Follows `trace` from `state`, multiplying the probability `p` by the
    /// probability of every transition taken. `None` if the trace gets stuck.
    pub open spec fn walk(&self, state: int, p: FracValue, trace: Seq<usize>) -> Option<(int, FracValue)>
        decreases trace.len(),
    {
        if trace.len() == 0 {
            Some((state, p))
        } else {
            match self.transition(state, trace[0] as int) {
                None => None,
                Some(i) => self.walk(
                    self.targets[i] as int,
                    frac_mul(p, self.probabilities[i]@),
                    trace.drop_first(),
                ),
            }
        }
    }

    /// Probability that the automaton produces exactly `trace`: the product of
    /// the probabilities of the transitions along it and of terminating at its
    /// end; zero if it has no initial state or the trace cannot be followed.
    pub open spec fn trace_probability(&self, trace: Seq<usize>) -> FracValue {
        match self.initial_state {
            None => frac_zero(),
            Some(s0) => match self.walk(s0 as int, frac_one(), trace) {
                None => frac_zero(),
                Some((end, p)) => frac_mul(p, self.terminating_probabilities[end]@),
            },
        }
    }

    /// Checks the well-formedness conditions of `wf`.
    pub fn is_well_formed(&self) -> (r: bool)
        ensures
            r == self.wf(),
    {
        let n = self.sources.len();
        let states = self.terminating_probabilities.len();
        if self.targets.len() != n || self.activities.len() != n || self.probabilities.len() != n {
            return false;
        }
        if let Some(s) = self.initial_state {
            if s >= states {
                return false;
            }
        }
        let mut i: usize = 0;
        while i < n
            invariant
                self.targets.len() == n,
                self.activities.len() == n,
                self.probabilities.len() == n,
                n == self.sources.len(),
                states == self.num_states(),
                i <= n,
                forall|k: int| 0 <= k < i ==> #[trigger] self.sources[k] < states,
                forall|k: int| 0 <= k < i ==> #[trigger] self.targets[k] < states,
                forall|k: int, j: int|
                    #![trigger self.sources[k], self.sources[j]]
                    0 <= k < j < i ==> key_less(
                        self.sources[k] as int,
                        self.activities[k] as int,
                        self.sources[j] as int,
                        self.activities[j] as int,
                    ),
            decreases n - i,
        {
            if self.sources[i] >= states || self.targets[i] >= states {
                return false;
            }
            if i > 0 && !(self.sources[i - 1] < self.sources[i] || (self.sources[i - 1]
                == self.sources[i] && self.activities[i - 1] < self.activities[i])) {
                return false;
            }
            i = i + 1;
        }
        true
    }

    /// Binary search for the transition from `source` on `activity`: returns
    /// whether it exists and its index, or else the index at which it would be
    /// inserted to keep the transitions sorted.
    pub fn binary_search(&self, source: usize, activity: usize) -> (r: (bool, usize))
        requires
            self.wf(),
        ensures
            r.1 <= self.num_transitions(),
            r.0 == self.has_transition(source as int, activity as int),
            r.0 ==> self.sources[r.1 as int] == source && self.activities[r.1 as int] == activity,
            r.0 ==> self.transition(source as int, activity as int) == Some(r.1 as int),
            !r.0 ==> forall|i: int|
                0 <= i < self.num_transitions() ==> (i < r.1 <==> key_less(
                    self.sources[i] as int,
                    self.activities[i] as int,
                    source as int,
                    activity as int,
                )),
    {
        let n = self.sources.len();
        let mut lo: usize = 0;
        let mut hi: usize = n;
        while lo < hi
            invariant
                self.wf(),
                n == self.sources.len(),
                0 <= lo <= hi <= n,
                forall|i: int|
                    0 <= i < lo ==> key_less(
                        #[trigger] self.sources[i] as int,
                        self.activities[i] as int,
                        source as int,
                        activity as int,
                    ),
                forall|i: int|
                    hi <= i < n ==> !key_less(
                        #[trigger] self.sources[i] as int,
                        self.activities[i] as int,
                        source as int,
                        activity as int,
                    ),
            decreases hi - lo,
        {
            let mid = lo + (hi - lo) / 2;
            if self.sources[mid] < source || (self.sources[mid] == source && self.activities[mid]
                < activity) {
                lo = mid + 1;
            } else {
                hi = mid;
            }
        }
        let found = lo < n && self.sources[lo] == source && self.activities[lo] == activity;
        proof {
            if found {
                assert(self.has_transition(source as int, activity as int));
                let j = self.transition(source as int, activity as int)->0;
                assert(self.sources[j] == source && self.activities[j] == activity);
                if j != lo as int {
                    if j < lo {
                        assert(key_less(
                            self.sources[j] as int,
                            self.activities[j] as int,
                            self.sources[lo as int] as int,
                            self.activities[lo as int] as int,
                        ));
                    } else {
                        assert(key_less(
                            self.sources[lo as int] as int,
                            self.activities[lo as int] as int,
                            self.sources[j] as int,
                            self.activities[j] as int,
                        ));
                    }
                }
            } else {
                assert forall|i: int|
                    0 <= i < n implies !(self.sources[i] == source && self.activities[i] == activity) by {
                    if i >= lo && i > lo {
                        assert(key_less(
                            self.sources[lo as int] as int,
                            self.activities[lo as int] as int,
                            self.sources[i] as int,
                            self.activities[i] as int,
                        ));
                    }
                }
                assert forall|i: int|
                    0 <= i < n implies (i < lo <==> key_less(
                        self.sources[i] as int,
                        self.activities[i] as int,
                        source as int,
                        activity as int,
                    )) by {
                    if i >= lo && i > lo {
                        assert(key_less(
                            self.sources[lo as int] as int,
                            self.activities[lo as int] as int,
                            self.sources[i] as int,
                            self.activities[i] as int,
                        ));
                    }
                }
            }
        }
        (found, lo)
    }

    /// Probability that the automaton produces exactly `trace`.
    pub fn prob_of_trace(&self, trace: &Vec<usize>) -> (r: Fraction)
        requires
            self.wf(),
        ensures
            r@ == self.trace_probability(trace@),
    {
        let mut state = match self.initial_state {
            Some(s) => s,
            None => return Fraction::zero(),
        };
        let mut p = Fraction::one();
        let mut k: usize = 0;
        proof {
            assert(trace@.skip(0) =~= trace@);
        }
        while k < trace.len()
            invariant
                self.wf(),
                self.initial_state is Some,
                state < self.num_states(),
                k <= trace.len(),
                self.walk(self.initial_state->0 as int, frac_one(), trace@) == self.walk(
                    state as int,
                    p@,
                    trace@.skip(k as int),
                ),
            decreases trace.len() - k,
        {
            let (found, place) = self.binary_search(state, trace[k]);
            proof {
                assert(trace@.skip(k as int)[0] == trace@[k as int]);
                assert(trace@.skip(k as int).drop_first() =~= trace@.skip(k + 1));
            }
            if !found {
                return Fraction::zero();
            }
            p = p.mul(&self.probabilities[place]);
            state = self.targets[place];
            k = k + 1;
        }
        proof {
            assert(trace@.skip(k as int) =~= Seq::<usize>::empty());
        }
        p.mul(&self.terminating_probabilities[state])
    }
}

} // verus!
