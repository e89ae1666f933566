//! The chain rule for the entropy of an SDFA: it is the sum, over the
//! states, of the expected number of visits times the entropy of the next
//! step taken there (which transition leaves the state, or termination).

use vstd::prelude::*;
use crate::automaton::Sdfa;
use crate::logdiv::LogDiv;
use crate::validity::{GainError, is_valid};
use crate::visits::expected_visits;
use crate::entropy::entropy_terms;
use crate::fraction::{FracValue, frac_one, frac_zero};
use crate::logdiv::{LogTerm, coefficient, is_prime, lemma_coefficient_concat, raw_add, same_sum, scale_terms};
use crate::model_entropy::{is_sdfa_entropy_result, sdfa_entropy_terms, state_term, termination_terms, transition_term, transition_terms};
use crate::rational::{
    lemma_add_congruent, lemma_mul_congruent, lemma_mul_distributes, lemma_positive_denominators,
    lemma_same_value_trans, lemma_sum_add, lemma_sum_congruent, lemma_sum_exchange, lemma_sum_extensional,
    lemma_sum_positive, lemma_sum_scale, raw_mul, raw_sum, same_value,
};
use crate::smoothing::{lemma_entropy_weights_positive, lemma_scale_coefficient};
use crate::termination::{lemma_add_zero, lemma_single_entry_sum};

verus! {

/// Entropy terms of the transitions among the first `k` that leave `st`.
pub open spec fn outgoing_entropy_terms(s: Sdfa, st: int, k: int) -> Seq<LogTerm>
    decreases k,
{
    if k <= 0 {
        Seq::empty()
    } else if s.sources[k - 1] == st {
        outgoing_entropy_terms(s, st, k - 1) + entropy_terms(s.probabilities[k - 1]@)
    } else {
        outgoing_entropy_terms(s, st, k - 1)
    }
}

/// Entropy terms of the next step from `st`: which transition leaves `st`,
/// or termination.
pub open spec fn next_step_entropy_terms(s: Sdfa, st: int) -> Seq<LogTerm> {
    outgoing_entropy_terms(s, st, s.num_transitions() as int) + entropy_terms(s.terminating_probabilities[st]@)
}

/// The next-step entropies of the first `k` states, each weighted by the
/// expected number of visits `c` of its state.
pub open spec fn weighted_next_step_terms(s: Sdfa, c: Seq<FracValue>, k: int) -> Seq<LogTerm>
    decreases k,
{
    if k <= 0 {
        Seq::empty()
    } else {
        weighted_next_step_terms(s, c, k - 1) + scale_terms(next_step_entropy_terms(s, k - 1), c[k - 1])
    }
}

/// The coefficient of a prime in the entropy contribution of `p`.
spec fn contribution(p: FracValue, q: nat) -> FracValue {
    coefficient(entropy_terms(p), q)
}

/// The contribution of transition `i` if it leaves `st`, else zero.
spec fn outgoing_indicator(s: Sdfa, st: int, q: nat) -> spec_fn(int) -> FracValue {
    |i: int| if s.sources[i] == st { contribution(s.probabilities[i]@, q) } else { frac_zero() }
}

proof fn lemma_contribution_positive(p: FracValue, q: nat)
    requires
        p.den > 0,
    ensures
        contribution(p, q).den > 0,
{
    lemma_entropy_weights_positive(p);
    reveal_with_fuel(crate::fraction::gcd, 2);
    lemma_scale_coefficient(entropy_terms(p), frac_one(), q);
}

/// `c` times the contribution of `p`, as the coefficient of the scaled terms.
proof fn lemma_scaled_contribution(p: FracValue, c: FracValue, q: nat)
    requires
        p.den > 0,
        c.den > 0,
    ensures
        same_value(coefficient(scale_terms(entropy_terms(p), c), q), raw_mul(c, contribution(p, q))),
        coefficient(scale_terms(entropy_terms(p), c), q).den > 0,
        contribution(p, q).den > 0,
{
    lemma_entropy_weights_positive(p);
    lemma_scale_coefficient(entropy_terms(p), c, q);
}

/// The transition terms: each transition's contribution times the visits of its source.
proof fn lemma_transition_coefficients(s: Sdfa, c: Seq<FracValue>, q: nat, k: int)
    requires
        s.wf(),
        0 <= k <= s.num_transitions(),
        c.len() == s.num_states(),
        forall|l: int| 0 <= l < c.len() ==> (#[trigger] c[l]).den > 0,
        forall|i: int| 0 <= i < s.num_transitions() ==> (#[trigger] s.probabilities[i]@).den > 0,
    ensures
        same_value(
            coefficient(transition_terms(s, c, k), q),
            raw_sum(|i: int| raw_mul(c[s.sources[i] as int], contribution(s.probabilities[i]@, q)), k),
        ),
        coefficient(transition_terms(s, c, k), q).den > 0,
    decreases k,
{
    let f = |i: int| raw_mul(c[s.sources[i] as int], contribution(s.probabilities[i]@, q));
    if k <= 0 {
        assert(coefficient(Seq::<LogTerm>::empty(), q) == frac_zero());
    } else {
        lemma_transition_coefficients(s, c, q, k - 1);
        let i = k - 1;
        let p = s.probabilities[i]@;
        let cs = c[s.sources[i] as int];
        assert(p.den > 0);
        assert(s.sources[i] < s.num_states());
        assert(cs.den > 0);
        assert(transition_term(s, c, i) =~= scale_terms(entropy_terms(p), cs));
        lemma_scaled_contribution(p, cs, q);
        lemma_coefficient_concat(transition_terms(s, c, k - 1), transition_term(s, c, i), q);
        lemma_add_congruent(
            coefficient(transition_terms(s, c, k - 1), q),
            raw_sum(f, k - 1),
            coefficient(transition_term(s, c, i), q),
            f(i),
        );
        lemma_positive_denominators(coefficient(transition_terms(s, c, k - 1), q), coefficient(transition_term(s, c, i), q));
        lemma_sum_extensional(f, |i: int| raw_mul(c[s.sources[i] as int], contribution(s.probabilities[i]@, q)), k);
    }
}

/// The plain termination terms: each state's termination contribution times its visits.
proof fn lemma_termination_coefficients(s: Sdfa, c: Seq<FracValue>, q: nat, k: int)
    requires
        0 <= k <= s.num_states(),
        c.len() == s.num_states(),
        forall|l: int| 0 <= l < c.len() ==> (#[trigger] c[l]).den > 0,
        forall|l: int| 0 <= l < s.num_states() ==> (#[trigger] s.terminating_probabilities[l]@).den > 0,
    ensures
        same_value(
            coefficient(termination_terms(s, frac_zero(), c, k), q),
            raw_sum(|st: int| raw_mul(c[st], contribution(s.terminating_probabilities[st]@, q)), k),
        ),
        coefficient(termination_terms(s, frac_zero(), c, k), q).den > 0,
    decreases k,
{
    let f = |st: int| raw_mul(c[st], contribution(s.terminating_probabilities[st]@, q));
    if k <= 0 {
        assert(coefficient(Seq::<LogTerm>::empty(), q) == frac_zero());
    } else {
        lemma_termination_coefficients(s, c, q, k - 1);
        let st = k - 1;
        let t = s.terminating_probabilities[st]@;
        assert(t.den > 0 && c[st].den > 0);
        assert(state_term(s, frac_zero(), c, st) =~= scale_terms(entropy_terms(t), c[st]));
        lemma_scaled_contribution(t, c[st], q);
        lemma_coefficient_concat(termination_terms(s, frac_zero(), c, k - 1), state_term(s, frac_zero(), c, st), q);
        lemma_add_congruent(
            coefficient(termination_terms(s, frac_zero(), c, k - 1), q),
            raw_sum(f, k - 1),
            coefficient(state_term(s, frac_zero(), c, st), q),
            f(st),
        );
        lemma_positive_denominators(
            coefficient(termination_terms(s, frac_zero(), c, k - 1), q),
            coefficient(state_term(s, frac_zero(), c, st), q),
        );
        lemma_sum_extensional(f, |st: int| raw_mul(c[st], contribution(s.terminating_probabilities[st]@, q)), k);
    }
}

/// The outgoing terms of `st`: the contributions of the transitions leaving it.
proof fn lemma_outgoing_coefficients(s: Sdfa, st: int, q: nat, k: int)
    requires
        0 <= k <= s.num_transitions(),
        forall|i: int| 0 <= i < s.num_transitions() ==> (#[trigger] s.probabilities[i]@).den > 0,
    ensures
        same_value(
            coefficient(outgoing_entropy_terms(s, st, k), q),
            raw_sum(outgoing_indicator(s, st, q), k),
        ),
        coefficient(outgoing_entropy_terms(s, st, k), q).den > 0,
    decreases k,
{
    let f = outgoing_indicator(s, st, q);
    if k <= 0 {
        assert(coefficient(Seq::<LogTerm>::empty(), q) == frac_zero());
    } else {
        lemma_outgoing_coefficients(s, st, q, k - 1);
        let i = k - 1;
        let p = s.probabilities[i]@;
        assert(p.den > 0);
        lemma_contribution_positive(p, q);
        assert forall|j: int| 0 <= j < k implies (#[trigger] f(j)).den > 0 by {
            assert(s.probabilities[j]@.den > 0);
            lemma_contribution_positive(s.probabilities[j]@, q);
        }
        lemma_sum_positive(f, k - 1);
        let prev = coefficient(outgoing_entropy_terms(s, st, k - 1), q);
        lemma_positive_denominators(prev, f(i));
        lemma_positive_denominators(raw_sum(f, k - 1), f(i));
        if s.sources[i] == st {
            lemma_coefficient_concat(outgoing_entropy_terms(s, st, k - 1), entropy_terms(p), q);
            lemma_add_congruent(prev, raw_sum(f, k - 1), contribution(p, q), f(i));
        } else {
            lemma_add_zero(raw_sum(f, k - 1));
            lemma_same_value_trans(prev, raw_sum(f, k - 1), raw_sum(f, k));
        }
    }
}

/// The weighted next-step terms: each state's visits times its next-step coefficient.
proof fn lemma_weighted_coefficients(s: Sdfa, c: Seq<FracValue>, q: nat, k: int)
    requires
        0 <= k <= s.num_states(),
        c.len() == s.num_states(),
        forall|l: int| 0 <= l < c.len() ==> (#[trigger] c[l]).den > 0,
        forall|i: int| 0 <= i < s.num_transitions() ==> (#[trigger] s.probabilities[i]@).den > 0,
        forall|l: int| 0 <= l < s.num_states() ==> (#[trigger] s.terminating_probabilities[l]@).den > 0,
    ensures
        same_value(
            coefficient(weighted_next_step_terms(s, c, k), q),
            raw_sum(|st: int| raw_mul(c[st], coefficient(next_step_entropy_terms(s, st), q)), k),
        ),
        coefficient(weighted_next_step_terms(s, c, k), q).den > 0,
    decreases k,
{
    let f = |st: int| raw_mul(c[st], coefficient(next_step_entropy_terms(s, st), q));
    if k <= 0 {
        assert(coefficient(Seq::<LogTerm>::empty(), q) == frac_zero());
    } else {
        lemma_weighted_coefficients(s, c, q, k - 1);
        let st = k - 1;
        let next = next_step_entropy_terms(s, st);
        assert(c[st].den > 0);
        let t = s.terminating_probabilities[st]@;
        assert(t.den > 0);
        lemma_entropy_weights_positive(t);
        lemma_outgoing_weights_positive(s, st, s.num_transitions() as int);
        let out = outgoing_entropy_terms(s, st, s.num_transitions() as int);
        assert forall|i: int| 0 <= i < next.len() implies (#[trigger] next[i]).weight.den > 0 by {
            if i < out.len() {
                assert(next[i] == out[i]);
            } else {
                assert(next[i] == entropy_terms(t)[i - out.len()]);
            }
        }
        lemma_scale_coefficient(next, c[st], q);
        lemma_coefficient_concat(weighted_next_step_terms(s, c, k - 1), scale_terms(next, c[st]), q);
        lemma_add_congruent(
            coefficient(weighted_next_step_terms(s, c, k - 1), q),
            raw_sum(f, k - 1),
            coefficient(scale_terms(next, c[st]), q),
            f(st),
        );
        lemma_positive_denominators(c[st], coefficient(next, q));
        lemma_positive_denominators(coefficient(weighted_next_step_terms(s, c, k - 1), q), coefficient(scale_terms(next, c[st]), q));
        lemma_sum_extensional(f, |st: int| raw_mul(c[st], coefficient(next_step_entropy_terms(s, st), q)), k);
    }
}

proof fn lemma_outgoing_weights_positive(s: Sdfa, st: int, k: int)
    requires
        0 <= k <= s.num_transitions(),
        forall|i: int| 0 <= i < s.num_transitions() ==> (#[trigger] s.probabilities[i]@).den > 0,
    ensures
        forall|j: int|
            0 <= j < outgoing_entropy_terms(s, st, k).len() ==> (#[trigger] outgoing_entropy_terms(s, st, k)[j]).weight.den
                > 0,
    decreases k,
{
    if k > 0 {
        lemma_outgoing_weights_positive(s, st, k - 1);
        let p = s.probabilities[k - 1]@;
        assert(p.den > 0);
        lemma_entropy_weights_positive(p);
        if s.sources[k - 1] == st {
            let a = outgoing_entropy_terms(s, st, k - 1);
            let b = entropy_terms(p);
            assert(outgoing_entropy_terms(s, st, k) == a + b);
            assert forall|j: int| 0 <= j < (a + b).len() implies (#[trigger] (a + b)[j]).weight.den > 0 by {
                if j < a.len() {
                    assert((a + b)[j] == a[j]);
                } else {
                    assert((a + b)[j] == b[j - a.len()]);
                }
            }
        } else {
            assert(outgoing_entropy_terms(s, st, k) == outgoing_entropy_terms(s, st, k - 1));
        }
    }
}

/// Summing `c[st]` times the contributions of the transitions leaving `st`,
/// over all states, counts each transition once, weighted by its source.
proof fn lemma_regroup_by_source(s: Sdfa, c: Seq<FracValue>, q: nat)
    requires
        s.wf(),
        c.len() == s.num_states(),
        forall|l: int| 0 <= l < c.len() ==> (#[trigger] c[l]).den > 0,
        forall|i: int| 0 <= i < s.num_transitions() ==> (#[trigger] s.probabilities[i]@).den > 0,
    ensures
        same_value(
            raw_sum(
                |st: int| raw_mul(c[st], coefficient(outgoing_entropy_terms(s, st, s.num_transitions() as int), q)),
                s.num_states() as int,
            ),
            raw_sum(|i: int| raw_mul(c[s.sources[i] as int], contribution(s.probabilities[i]@, q)), s.num_transitions() as int),
        ),
{
    let n = s.num_states() as int;
    let m = s.num_transitions() as int;
    let e = |i: int| contribution(s.probabilities[i]@, q);
    let ind = |st: int, i: int| if s.sources[i] == st { e(i) } else { frac_zero() };
    let g = |i: int, st: int| raw_mul(c[st], ind(st, i));
    let lhs = |st: int| raw_mul(c[st], coefficient(outgoing_entropy_terms(s, st, m), q));
    let mid = |st: int| raw_sum(|i: int| g(i, st), m);
    let target = |i: int| raw_mul(c[s.sources[i] as int], e(i));
    assert forall|i: int| 0 <= i < m implies (#[trigger] e(i)).den > 0 by {
        assert(s.probabilities[i]@.den > 0);
        lemma_contribution_positive(s.probabilities[i]@, q);
    }
    assert forall|i: int, st: int| 0 <= i < m && 0 <= st < n implies (#[trigger] g(i, st)).den > 0 by {
        assert(e(i).den > 0 && c[st].den > 0);
        lemma_positive_denominators(c[st], ind(st, i));
    }
    // each state's term is the sum over transitions of c[st] times the indicator
    assert forall|st: int| 0 <= st < n implies same_value(#[trigger] lhs(st), mid(st)) && lhs(st).den > 0 && mid(st).den
        > 0 by {
        let row = |i: int| ind(st, i);
        lemma_outgoing_coefficients(s, st, q, m);
        lemma_sum_extensional(row, outgoing_indicator(s, st, q), m);
        assert forall|i: int| 0 <= i < m implies (#[trigger] row(i)).den > 0 by {
            assert(e(i).den > 0);
        }
        let o = coefficient(outgoing_entropy_terms(s, st, m), q);
        assert(c[st].den > 0);
        assert(same_value(o, raw_sum(row, m)));
        lemma_mul_congruent(c[st], c[st], o, raw_sum(row, m));
        lemma_sum_scale(c[st], row, m);
        lemma_sum_extensional(|i: int| g(i, st), |i: int| raw_mul(c[st], row(i)), m);
        lemma_positive_denominators(c[st], o);
        lemma_positive_denominators(c[st], raw_sum(row, m));
        lemma_same_value_trans(lhs(st), raw_mul(c[st], raw_sum(row, m)), mid(st));
        assert forall|i: int| 0 <= i < m implies (#[trigger] g(i, st)).den > 0 by {
            assert(g(i, st).den > 0);
        }
        lemma_sum_positive(|i: int| g(i, st), m);
    }
    assert forall|st: int| 0 <= st < n implies (#[trigger] mid(st)).den > 0 by {
        assert forall|i: int| 0 <= i < m implies (#[trigger] g(i, st)).den > 0 by {
        }
        lemma_sum_positive(|i: int| g(i, st), m);
    }
    lemma_sum_congruent(lhs, mid, n);
    // exchange the double sum
    lemma_sum_exchange(g, m, n);
    lemma_sum_extensional(mid, |j: int| raw_sum(|l: int| g(l, j), m), n);
    let col = |i: int| raw_sum(|st: int| g(i, st), n);
    lemma_sum_extensional(col, |l: int| raw_sum(|j: int| g(l, j), n), m);
    // each transition's column is its contribution weighted by its source
    assert forall|i: int| 0 <= i < m implies same_value(#[trigger] col(i), target(i)) && col(i).den > 0 && target(i).den
        > 0 by {
        let src = s.sources[i] as int;
        assert(0 <= src < n);
        let x = raw_mul(c[src], e(i));
        assert(c[src].den > 0 && e(i).den > 0);
        lemma_positive_denominators(c[src], e(i));
        let single = |st: int| if st == src { x } else { frac_zero() };
        assert forall|st: int| 0 <= st < n implies same_value(#[trigger] g(i, st), single(st)) && g(i, st).den > 0
            && single(st).den > 0 by {
            assert(c[st].den > 0);
            if st != src {
                assert(c[st].num * 0 == 0) by (nonlinear_arith);
                assert((c[st].num * 0) * 1 == 0 * (c[st].den * 1)) by (nonlinear_arith);
            }
        }
        lemma_sum_congruent(|st: int| g(i, st), single, n);
        lemma_single_entry_sum(src, x, n);
        lemma_sum_extensional(single, |j: int| if j == src { x } else { frac_zero() }, n);
        lemma_sum_positive(|st: int| g(i, st), n);
        lemma_same_value_trans(col(i), raw_sum(single, n), x);
    }
    lemma_sum_congruent(col, target, m);
    lemma_sum_positive(mid, n);
    lemma_sum_positive(col, m);
    lemma_same_value_trans(raw_sum(lhs, n), raw_sum(mid, n), raw_sum(col, m));
    lemma_same_value_trans(raw_sum(lhs, n), raw_sum(col, m), raw_sum(target, m));
    lemma_sum_extensional(lhs, |st: int| raw_mul(c[st], coefficient(outgoing_entropy_terms(s, st, s.num_transitions() as int), q)), n);
    lemma_sum_extensional(target, |i: int| raw_mul(c[s.sources[i] as int], contribution(s.probabilities[i]@, q)), m);
}

/// Chain rule: the entropy of an SDFA, given the expected numbers of visits
/// `c` of its states, is the sum over its states of `c[st]` times the
/// entropy of the next step at `st` (which transition leaves `st`, or
/// termination).
pub proof fn lemma_sdfa_entropy_chain_rule(s: Sdfa, c: Seq<FracValue>)
    requires
        s.wf(),
        c.len() == s.num_states(),
        forall|l: int| 0 <= l < c.len() ==> (#[trigger] c[l]).den > 0,
        forall|i: int| 0 <= i < s.num_transitions() ==> (#[trigger] s.probabilities[i]@).den > 0,
        forall|l: int| 0 <= l < s.num_states() ==> (#[trigger] s.terminating_probabilities[l]@).den > 0,
    ensures
        same_sum(sdfa_entropy_terms(s, frac_zero(), c), weighted_next_step_terms(s, c, s.num_states() as int)),
{
    let n = s.num_states() as int;
    let m = s.num_transitions() as int;
    assert forall|q: nat| is_prime(q) implies (#[trigger] coefficient(sdfa_entropy_terms(s, frac_zero(), c), q)).num
        * coefficient(weighted_next_step_terms(s, c, n), q).den
        == coefficient(weighted_next_step_terms(s, c, n), q).num
        * coefficient(sdfa_entropy_terms(s, frac_zero(), c), q).den by {
        let a = coefficient(transition_terms(s, c, m), q);
        let b = coefficient(termination_terms(s, frac_zero(), c, n), q);
        let sa = raw_sum(|i: int| raw_mul(c[s.sources[i] as int], contribution(s.probabilities[i]@, q)), m);
        let sb = raw_sum(|st: int| raw_mul(c[st], contribution(s.terminating_probabilities[st]@, q)), n);
        lemma_transition_coefficients(s, c, q, m);
        lemma_termination_coefficients(s, c, q, n);
        lemma_coefficient_concat(transition_terms(s, c, m), termination_terms(s, frac_zero(), c, n), q);
        // the weighted next steps split into outgoing and termination parts
        let co = |st: int| raw_mul(c[st], coefficient(outgoing_entropy_terms(s, st, m), q));
        let ct = |st: int| raw_mul(c[st], contribution(s.terminating_probabilities[st]@, q));
        let w = |st: int| raw_mul(c[st], coefficient(next_step_entropy_terms(s, st), q));
        assert forall|st: int| 0 <= st < n implies same_value(#[trigger] w(st), raw_add(co(st), ct(st))) && w(st).den > 0
            && raw_add(co(st), ct(st)).den > 0 && co(st).den > 0 && ct(st).den > 0 by {
            let o = coefficient(outgoing_entropy_terms(s, st, m), q);
            let t = s.terminating_probabilities[st]@;
            assert(c[st].den > 0 && t.den > 0);
            lemma_outgoing_coefficients(s, st, q, m);
            lemma_contribution_positive(t, q);
            lemma_coefficient_concat(outgoing_entropy_terms(s, st, m), entropy_terms(t), q);
            lemma_mul_distributes(c[st], o, contribution(t, q));
            lemma_positive_denominators(o, contribution(t, q));
            lemma_positive_denominators(c[st], raw_add(o, contribution(t, q)));
            lemma_positive_denominators(c[st], o);
            lemma_positive_denominators(c[st], contribution(t, q));
            lemma_positive_denominators(co(st), ct(st));
        }
        let split = |st: int| raw_add(co(st), ct(st));
        lemma_sum_congruent(w, split, n);
        assert forall|st: int| 0 <= st < n implies (#[trigger] co(st)).den > 0 && ct(st).den > 0 by {
            assert(same_value(w(st), raw_add(co(st), ct(st))));
        }
        assert forall|st: int| 0 <= st < n implies (#[trigger] split(st)).den > 0 by {
            assert(same_value(w(st), raw_add(co(st), ct(st))));
        }
        assert forall|st: int| 0 <= st < n implies (#[trigger] ct(st)).den > 0 by {
            assert(co(st).den > 0);
        }
        lemma_sum_add(co, ct, n);
        lemma_sum_extensional(split, |i: int| raw_add(co(i), ct(i)), n);
        lemma_sum_positive(split, n);
        lemma_sum_positive(co, n);
        lemma_sum_positive(ct, n);
        lemma_same_value_trans(raw_sum(w, n), raw_sum(split, n), raw_add(raw_sum(co, n), raw_sum(ct, n)));
        // the outgoing parts regroup into the transition part
        lemma_regroup_by_source(s, c, q);
        lemma_sum_extensional(co, |st: int| raw_mul(c[st], coefficient(outgoing_entropy_terms(s, st, s.num_transitions() as int), q)), n);
        lemma_sum_extensional(ct, |st: int| raw_mul(c[st], contribution(s.terminating_probabilities[st]@, q)), n);
        lemma_add_congruent(raw_sum(co, n), sa, raw_sum(ct, n), sb);
        lemma_add_congruent(a, sa, b, sb);
        let tr = |i: int| raw_mul(c[s.sources[i] as int], contribution(s.probabilities[i]@, q));
        assert forall|i: int| 0 <= i < m implies (#[trigger] tr(i)).den > 0 by {
            assert(s.sources[i] < n);
            assert(c[s.sources[i] as int].den > 0 && s.probabilities[i]@.den > 0);
            lemma_contribution_positive(s.probabilities[i]@, q);
            lemma_positive_denominators(c[s.sources[i] as int], contribution(s.probabilities[i]@, q));
        }
        lemma_sum_positive(tr, m);
        lemma_sum_extensional(tr, |i: int| raw_mul(c[s.sources[i] as int], contribution(s.probabilities[i]@, q)), m);
        lemma_sum_positive(ct, n);
        lemma_positive_denominators(sa, sb);
        lemma_same_value_trans(raw_add(a, b), raw_add(sa, sb), raw_add(raw_sum(co, n), raw_sum(ct, n)));
        lemma_positive_denominators(raw_sum(co, n), raw_sum(ct, n));
        lemma_same_value_trans(raw_add(a, b), raw_add(raw_sum(co, n), raw_sum(ct, n)), raw_sum(w, n));
        lemma_weighted_coefficients(s, c, q, n);
        lemma_sum_extensional(w, |st: int| raw_mul(c[st], coefficient(next_step_entropy_terms(s, st), q)), n);
        lemma_same_value_trans(raw_add(a, b), raw_sum(w, n), coefficient(weighted_next_step_terms(s, c, n), q));
    }
}

/// Chain rule for what `entropy_sdfa` returns without smoothing: the entropy
/// of the SDFA is the sum over its states of the expected number of visits
/// times the entropy of the next step taken there.
pub proof fn lemma_entropy_sdfa_chain_rule(s: Sdfa, r: Result<LogDiv, GainError>)
    requires
        s.wf(),
        is_sdfa_entropy_result(s, frac_zero(), r),
        r is Ok,
        forall|i: int| 0 <= i < s.num_transitions() ==> (#[trigger] s.probabilities[i]@).den > 0,
        forall|l: int| 0 <= l < s.num_states() ==> (#[trigger] s.terminating_probabilities[l]@).den > 0,
    ensures
        same_sum(r->Ok_0@, weighted_next_step_terms(s, expected_visits(s)->0, s.num_states() as int)),
{
    let c = expected_visits(s)->0;
    assert(is_valid(s));
    assert forall|l: int| 0 <= l < c.len() implies (#[trigger] c[l]).den > 0 by {
        assert(crate::fraction::is_reduced(c[l]));
    }
    lemma_sdfa_entropy_chain_rule(s, c);
}

} // verus!
