//! For a valid SDFA, the expected numbers of visits `c` (which solve
//! `c (I - P) = e_{s0}`) weight the termination probabilities to a total of
//! one: `sum_s c[s] * t[s] == 1`.

use vstd::prelude::*;
use crate::automaton::Sdfa;
use crate::fraction::{FracValue, frac_add, frac_mul, frac_one, frac_sub, frac_zero};
use crate::logdiv::raw_add;
use crate::matrix::{delta, identity_minus_spec};
use crate::rational::{
    lemma_add_congruent, lemma_mul_congruent, lemma_normalize_same_value, lemma_positive_denominators,
    lemma_same_value_trans, lemma_sum_add, lemma_sum_congruent, lemma_sum_exchange, lemma_sum_extensional,
    lemma_sum_positive, lemma_sum_scale, raw_mul, raw_sum, same_value,
};
use crate::fraction::is_reduced;
use crate::logdiv::same_sum;
use crate::model_entropy::sdfa_entropy_terms;
use crate::smoothing::{binary_entropy_terms, lemma_smoothed_sdfa_entropy, termination_mass};
use crate::validity::{is_one_value, is_valid, outgoing_sum, state_total};
use crate::visits::{column_dot, solves_visits_equation, transition_matrix, transition_weight};

verus! {

/// `-a`, over `a`'s denominator.
spec fn raw_neg(a: FracValue) -> FracValue {
    FracValue { num: -a.num, den: a.den }
}

proof fn lemma_frac_add_value(a: FracValue, b: FracValue)
    requires
        a.den > 0,
        b.den > 0,
    ensures
        same_value(frac_add(a, b), raw_add(a, b)),
        frac_add(a, b).den > 0,
{
    lemma_positive_denominators(a, b);
    lemma_normalize_same_value(raw_add(a, b).num, raw_add(a, b).den);
}

proof fn lemma_frac_mul_value(a: FracValue, b: FracValue)
    requires
        a.den > 0,
        b.den > 0,
    ensures
        same_value(frac_mul(a, b), raw_mul(a, b)),
        frac_mul(a, b).den > 0,
{
    lemma_positive_denominators(a, b);
    lemma_normalize_same_value(raw_mul(a, b).num, raw_mul(a, b).den);
}

proof fn lemma_frac_sub_value(a: FracValue, b: FracValue)
    requires
        a.den > 0,
        b.den > 0,
    ensures
        same_value(frac_sub(a, b), raw_add(a, raw_neg(b))),
        frac_sub(a, b).den > 0,
{
    lemma_positive_denominators(a, b);
    assert(a.num * b.den - b.num * a.den == a.num * b.den + (-b.num) * a.den) by (nonlinear_arith);
    lemma_normalize_same_value(a.num * b.den - b.num * a.den, a.den * b.den);
}

pub(crate) proof fn lemma_add_zero(a: FracValue)
    ensures
        same_value(raw_add(a, frac_zero()), a),
        same_value(raw_add(frac_zero(), a), a),
{
    assert((a.num * 1 + 0 * a.den) * a.den == a.num * (a.den * 1)) by (nonlinear_arith);
    assert((0 * a.den + a.num * 1) * a.den == a.num * (1 * a.den)) by (nonlinear_arith);
}

/// A sum with one possibly non-zero entry, at `t`.
pub(crate) proof fn lemma_single_entry_sum(t: int, x: FracValue, k: int)
    requires
        0 <= t,
        x.den > 0,
    ensures
        same_value(raw_sum(|j: int| if j == t { x } else { frac_zero() }, k), if t < k { x } else { frac_zero() }),
        raw_sum(|j: int| if j == t { x } else { frac_zero() }, k).den > 0,
    decreases k,
{
    let f = |j: int| if j == t { x } else { frac_zero() };
    if k > 0 {
        lemma_single_entry_sum(t, x, k - 1);
        let prev = raw_sum(f, k - 1);
        let expected_prev = if t < k - 1 { x } else { frac_zero() };
        lemma_add_congruent(prev, expected_prev, f(k - 1), f(k - 1));
        lemma_add_zero(x);
        lemma_add_zero(frac_zero());
        lemma_positive_denominators(prev, f(k - 1));
        lemma_positive_denominators(expected_prev, f(k - 1));
        lemma_same_value_trans(raw_add(prev, f(k - 1)), raw_add(expected_prev, f(k - 1)), if t < k { x } else { frac_zero() });
    }
}

/// `column_dot` (reduced at each step) has the value of the plain sum.
proof fn lemma_column_value(c: Seq<FracValue>, m: Seq<Seq<FracValue>>, j: int, k: int)
    requires
        0 <= k,
        forall|l: int| 0 <= l < k ==> (#[trigger] c[l]).den > 0 && m[l][j].den > 0,
    ensures
        same_value(column_dot(c, m, j, k), raw_sum(|l: int| raw_mul(c[l], m[l][j]), k)),
        column_dot(c, m, j, k).den > 0,
    decreases k,
{
    let f = |l: int| raw_mul(c[l], m[l][j]);
    if k > 0 {
        lemma_column_value(c, m, j, k - 1);
        assert(c[k - 1].den > 0 && m[k - 1][j].den > 0);
        let prev = column_dot(c, m, j, k - 1);
        let term = frac_mul(c[k - 1], m[k - 1][j]);
        lemma_frac_mul_value(c[k - 1], m[k - 1][j]);
        lemma_frac_add_value(prev, term);
        lemma_add_congruent(prev, raw_sum(f, k - 1), term, f(k - 1));
        lemma_positive_denominators(prev, term);
        lemma_same_value_trans(frac_add(prev, term), raw_add(prev, term), raw_add(raw_sum(f, k - 1), f(k - 1)));
    }
}

proof fn lemma_transition_weight_positive(s: Sdfa, r: int, col: int, k: int)
    requires
        0 <= k <= s.num_transitions(),
        forall|i: int| 0 <= i < s.num_transitions() ==> (#[trigger] s.probabilities[i]@).den > 0,
    ensures
        transition_weight(s, r, col, k).den > 0,
    decreases k,
{
    if k > 0 {
        lemma_transition_weight_positive(s, r, col, k - 1);
        assert(s.probabilities[k - 1]@.den > 0);
        lemma_frac_add_value(transition_weight(s, r, col, k - 1), s.probabilities[k - 1]@);
    }
}

/// The weights of the first `k` transitions from `l`, summed over targets,
/// are the outgoing probability of `l` over those transitions.
proof fn lemma_row_sum(s: Sdfa, l: int, k: int)
    requires
        s.wf(),
        0 <= k <= s.num_transitions(),
        0 <= l < s.num_states(),
        forall|i: int| 0 <= i < s.num_transitions() ==> (#[trigger] s.probabilities[i]@).den > 0,
    ensures
        same_value(raw_sum(|col: int| transition_weight(s, l, col, k), s.num_states() as int), outgoing_sum(s, l, k)),
        raw_sum(|col: int| transition_weight(s, l, col, k), s.num_states() as int).den > 0,
        outgoing_sum(s, l, k).den > 0,
    decreases k,
{
    let n = s.num_states() as int;
    let cur = |col: int| transition_weight(s, l, col, k);
    assert forall|col: int| 0 <= col < n implies (#[trigger] cur(col)).den > 0 by {
        lemma_transition_weight_positive(s, l, col, k);
    }
    lemma_sum_positive(cur, n);
    if k == 0 {
        let zero = |col: int| frac_zero();
        assert forall|col: int| 0 <= col < n implies #[trigger] cur(col) == zero(col) by {
        }
        lemma_sum_extensional(cur, zero, n);
        lemma_sum_zero_value(n);
    } else {
        lemma_row_sum(s, l, k - 1);
        let i = k - 1;
        let p = s.probabilities[i]@;
        let tg = s.targets[i] as int;
        assert(p.den > 0);
        assert(0 <= tg < n);
        let cond = s.sources[i] == l && p.num != 0;
        let x = if cond { p } else { frac_zero() };
        let prev = |col: int| transition_weight(s, l, col, k - 1);
        let ind = |col: int| if col == tg { x } else { frac_zero() };
        let split = |col: int| raw_add(prev(col), ind(col));
        assert forall|col: int| 0 <= col < n implies same_value(#[trigger] cur(col), split(col)) && cur(col).den > 0
            && split(col).den > 0 by {
            lemma_transition_weight_positive(s, l, col, k);
            lemma_transition_weight_positive(s, l, col, k - 1);
            lemma_positive_denominators(prev(col), ind(col));
            lemma_add_zero(prev(col));
            if cond && col == tg {
                lemma_frac_add_value(prev(col), p);
            }
        }
        lemma_sum_congruent(cur, split, n);
        assert forall|col: int| 0 <= col < n implies (#[trigger] prev(col)).den > 0 && ind(col).den > 0 by {
            lemma_transition_weight_positive(s, l, col, k - 1);
        }
        lemma_sum_add(prev, ind, n);
        lemma_sum_extensional(split, |i: int| raw_add(prev(i), ind(i)), n);
        lemma_single_entry_sum(tg, x, n);
        lemma_sum_extensional(ind, |j: int| if j == tg { x } else { frac_zero() }, n);
        lemma_sum_extensional(prev, |col: int| transition_weight(s, l, col, k - 1), n);
        let out = outgoing_sum(s, l, k - 1);
        lemma_add_congruent(raw_sum(prev, n), out, raw_sum(ind, n), x);
        lemma_sum_positive(prev, n);
        lemma_sum_positive(ind, n);
        lemma_positive_denominators(raw_sum(prev, n), raw_sum(ind, n));
        lemma_positive_denominators(out, x);
        lemma_same_value_trans(raw_sum(cur, n), raw_sum(split, n), raw_add(raw_sum(prev, n), raw_sum(ind, n)));
        lemma_same_value_trans(raw_sum(cur, n), raw_add(raw_sum(prev, n), raw_sum(ind, n)), raw_add(out, x));
        // the outgoing sum takes the same step
        lemma_add_zero(out);
        if s.sources[i] == l {
            lemma_frac_add_value(out, p);
            lemma_add_congruent(out, out, p, x);
            lemma_positive_denominators(out, p);
            lemma_same_value_trans(raw_sum(cur, n), raw_add(out, x), raw_add(out, p));
            lemma_same_value_trans(raw_sum(cur, n), raw_add(out, p), frac_add(out, p));
        } else {
            lemma_same_value_trans(raw_sum(cur, n), raw_add(out, x), out);
        }
    }
}

/// A sum of zeros is zero.
proof fn lemma_sum_zero_value(k: int)
    ensures
        same_value(raw_sum(|col: int| frac_zero(), k), frac_zero()),
        raw_sum(|col: int| frac_zero(), k).den > 0,
{
    crate::rational::lemma_sum_zero(k);
    lemma_sum_extensional(|col: int| frac_zero(), |j: int| frac_zero(), k);
}

/// Row `l` of `I - P`, summed, is one less the outgoing probability of `l`.
proof fn lemma_identity_minus_row(s: Sdfa, l: int)
    requires
        s.wf(),
        0 <= l < s.num_states(),
        forall|i: int| 0 <= i < s.num_transitions() ==> (#[trigger] s.probabilities[i]@).den > 0,
    ensures
        same_value(
            raw_sum(|j: int| identity_minus_spec(transition_matrix(s))[l][j], s.num_states() as int),
            raw_add(frac_one(), raw_neg(outgoing_sum(s, l, s.num_transitions() as int))),
        ),
        raw_sum(|j: int| identity_minus_spec(transition_matrix(s))[l][j], s.num_states() as int).den > 0,
        outgoing_sum(s, l, s.num_transitions() as int).den > 0,
{
    let n = s.num_states() as int;
    let nt = s.num_transitions() as int;
    let pm = transition_matrix(s);
    let m = identity_minus_spec(pm);
    let row = |j: int| m[l][j];
    let tw = |j: int| transition_weight(s, l, j, nt);
    let d = |j: int| delta(l, j);
    let minus_one = FracValue { num: -1, den: 1 };
    let ntw = |j: int| raw_mul(minus_one, tw(j));
    let split = |j: int| raw_add(d(j), ntw(j));
    let out = outgoing_sum(s, l, nt);
    lemma_row_sum(s, l, nt);
    assert forall|j: int| 0 <= j < n implies same_value(#[trigger] row(j), split(j)) && row(j).den > 0
        && split(j).den > 0 && d(j).den > 0 && ntw(j).den > 0 && tw(j).den > 0 by {
        assert(pm[l].len() == n);
        assert(row(j) == frac_sub(delta(l, j), tw(j)));
        lemma_transition_weight_positive(s, l, j, nt);
        lemma_frac_sub_value(delta(l, j), tw(j));
        assert((-tw(j).num) * (1 * tw(j).den) == (-1 * tw(j).num) * tw(j).den) by (nonlinear_arith);
        lemma_add_congruent(d(j), d(j), raw_neg(tw(j)), ntw(j));
        lemma_positive_denominators(minus_one, tw(j));
        lemma_positive_denominators(d(j), ntw(j));
        lemma_positive_denominators(d(j), raw_neg(tw(j)));
        lemma_same_value_trans(row(j), raw_add(d(j), raw_neg(tw(j))), split(j));
    }
    assert forall|j: int| 0 <= j < n implies (#[trigger] tw(j)).den > 0 by {
        lemma_transition_weight_positive(s, l, j, nt);
    }
    assert forall|j: int| 0 <= j < n implies (#[trigger] ntw(j)).den > 0 by {
        assert(tw(j).den > 0);
        lemma_positive_denominators(minus_one, tw(j));
    }
    assert forall|j: int| 0 <= j < n implies (#[trigger] d(j)).den > 0 && ntw(j).den > 0 by {
        assert(ntw(j).den > 0);
    }
    lemma_sum_congruent(row, split, n);
    lemma_sum_add(d, ntw, n);
    lemma_sum_extensional(split, |i: int| raw_add(d(i), ntw(i)), n);
    // the diagonal entries sum to one
    lemma_sum_extensional(d, |j: int| if j == l { frac_one() } else { frac_zero() }, n);
    lemma_single_entry_sum(l, frac_one(), n);
    // the negated weights sum to minus the outgoing probability
    lemma_sum_scale(minus_one, tw, n);
    lemma_sum_extensional(ntw, |i: int| raw_mul(minus_one, tw(i)), n);
    lemma_sum_extensional(tw, |col: int| transition_weight(s, l, col, nt), n);
    lemma_mul_congruent(minus_one, minus_one, raw_sum(tw, n), out);
    assert((-1 * out.num) * out.den == (-out.num) * (1 * out.den)) by (nonlinear_arith);
    lemma_positive_denominators(minus_one, raw_sum(tw, n));
    lemma_positive_denominators(minus_one, out);
    lemma_same_value_trans(raw_sum(ntw, n), raw_mul(minus_one, raw_sum(tw, n)), raw_mul(minus_one, out));
    lemma_same_value_trans(raw_sum(ntw, n), raw_mul(minus_one, out), raw_neg(out));
    lemma_add_congruent(raw_sum(d, n), frac_one(), raw_sum(ntw, n), raw_neg(out));
    lemma_sum_positive(d, n);
    lemma_sum_positive(ntw, n);
    lemma_positive_denominators(raw_sum(d, n), raw_sum(ntw, n));
    lemma_same_value_trans(raw_sum(row, n), raw_sum(split, n), raw_add(raw_sum(d, n), raw_sum(ntw, n)));
    lemma_same_value_trans(raw_sum(row, n), raw_add(raw_sum(d, n), raw_sum(ntw, n)), raw_add(frac_one(), raw_neg(out)));
    lemma_sum_extensional(row, |j: int| identity_minus_spec(transition_matrix(s))[l][j], n);
}

/// In a valid SDFA, one less the outgoing probability of a state is its
/// termination probability.
proof fn lemma_one_minus_outgoing(s: Sdfa, l: int)
    requires
        is_valid(s),
        0 <= l < s.num_states(),
        outgoing_sum(s, l, s.num_transitions() as int).den > 0,
        s.terminating_probabilities[l]@.den > 0,
    ensures
        same_value(raw_add(frac_one(), raw_neg(outgoing_sum(s, l, s.num_transitions() as int))), s.terminating_probabilities[l]@),
{
    let out = outgoing_sum(s, l, s.num_transitions() as int);
    let t = s.terminating_probabilities[l]@;
    assert(is_one_value(state_total(s, l)));
    lemma_frac_add_value(out, t);
    let fa = frac_add(out, t);
    let ra = raw_add(out, t);
    assert(ra.num == ra.den) by (nonlinear_arith)
        requires
            fa.num * ra.den == ra.num * fa.den,
            fa.num == fa.den,
            fa.den > 0,
    ;
    assert((1 * out.den + (-out.num) * 1) * t.den == t.num * (1 * out.den)) by (nonlinear_arith)
        requires
            out.num * t.den + t.num * out.den == out.den * t.den,
    ;
}

proof fn lemma_termination_mass_sum(s: Sdfa, c: Seq<FracValue>, k: int)
    ensures
        termination_mass(s, c, k) == raw_sum(|l: int| raw_mul(c[l], s.terminating_probabilities[l]@), k),
    decreases k,
{
    if k > 0 {
        lemma_termination_mass_sum(s, c, k - 1);
    }
}

/// In a valid SDFA, expected numbers of visits `c` (solving
/// `c (I - P) = e_{s0}`) weight the termination probabilities to a total of
/// one: `sum_s c[s] * t[s] == 1`.
pub proof fn lemma_termination_mass_is_one(s: Sdfa, c: Seq<FracValue>)
    requires
        s.wf(),
        is_valid(s),
        solves_visits_equation(s, c),
        forall|l: int| 0 <= l < c.len() ==> (#[trigger] c[l]).den > 0,
        forall|i: int| 0 <= i < s.num_transitions() ==> (#[trigger] s.probabilities[i]@).den > 0,
        forall|l: int| 0 <= l < s.num_states() ==> (#[trigger] s.terminating_probabilities[l]@).den > 0,
    ensures
        same_value(termination_mass(s, c, s.num_states() as int), frac_one()),
{
    let n = s.num_states() as int;
    let nt = s.num_transitions() as int;
    let s0 = s.initial_state->0 as int;
    let pm = transition_matrix(s);
    let m = identity_minus_spec(pm);
    let f2 = |l: int, j: int| raw_mul(c[l], m[l][j]);
    // entries of I - P have positive denominators
    assert forall|l: int, j: int| 0 <= l < n && 0 <= j < n implies (#[trigger] m[l][j]).den > 0 by {
        assert(pm[l].len() == n);
        lemma_transition_weight_positive(s, l, j, nt);
        lemma_frac_sub_value(delta(l, j), pm[l][j]);
    }
    assert forall|l: int, j: int| 0 <= l < n && 0 <= j < n implies (#[trigger] f2(l, j)).den > 0 by {
        assert(m[l][j].den > 0);
        lemma_positive_denominators(c[l], m[l][j]);
    }
    // each column of c (I - P) is the entry of e_{s0}
    let col = |j: int| raw_sum(|l: int| f2(l, j), n);
    let unit = |j: int| if j == s0 { frac_one() } else { frac_zero() };
    assert forall|j: int| 0 <= j < n implies same_value(#[trigger] col(j), unit(j)) && col(j).den > 0 && unit(j).den
        > 0 by {
        assert forall|l: int| 0 <= l < n implies (#[trigger] c[l]).den > 0 && m[l][j].den > 0 by {
        }
        lemma_column_value(c, m, j, n);
        lemma_sum_extensional(|l: int| f2(l, j), |l: int| raw_mul(c[l], m[l][j]), n);
        assert forall|l: int| 0 <= l < n implies (#[trigger] f2(l, j)).den > 0 by {
        }
        lemma_sum_positive(|l: int| f2(l, j), n);
        let e = column_dot(c, m, j, n);
        assert(solves_visits_equation(s, c));
        if j == s0 {
            assert(is_one_value(e));
            assert(unit(j) == frac_one());
            assert(e.num * 1 == 1 * e.den);
        } else {
            assert(e.num == 0);
            assert(unit(j) == frac_zero());
            assert(e.num * 1 == 0 * e.den);
        }
        assert(same_value(e, unit(j)));
        lemma_same_value_trans(col(j), e, unit(j));
    }
    lemma_sum_congruent(col, unit, n);
    lemma_single_entry_sum(s0, frac_one(), n);
    lemma_sum_extensional(unit, |j: int| if j == s0 { frac_one() } else { frac_zero() }, n);
    // exchange the double sum
    lemma_sum_exchange(f2, n, n);
    lemma_sum_extensional(col, |j: int| raw_sum(|l: int| f2(l, j), n), n);
    let row = |l: int| raw_sum(|j: int| f2(l, j), n);
    lemma_sum_extensional(row, |l: int| raw_sum(|j: int| f2(l, j), n), n);
    // each row is c[l] * t[l]
    let ct = |l: int| raw_mul(c[l], s.terminating_probabilities[l]@);
    assert forall|l: int| 0 <= l < n implies same_value(#[trigger] row(l), ct(l)) && row(l).den > 0 && ct(l).den > 0 by {
        let mrow = |j: int| m[l][j];
        assert forall|j: int| 0 <= j < n implies (#[trigger] mrow(j)).den > 0 by {
            assert(m[l][j].den > 0);
        }
        lemma_sum_scale(c[l], mrow, n);
        lemma_sum_extensional(|j: int| f2(l, j), |i: int| raw_mul(c[l], mrow(i)), n);
        lemma_identity_minus_row(s, l);
        lemma_sum_extensional(mrow, |j: int| identity_minus_spec(transition_matrix(s))[l][j], n);
        let out = outgoing_sum(s, l, nt);
        let t = s.terminating_probabilities[l]@;
        lemma_one_minus_outgoing(s, l);
        lemma_same_value_trans(raw_sum(mrow, n), raw_add(frac_one(), raw_neg(out)), t);
        lemma_mul_congruent(c[l], c[l], raw_sum(mrow, n), t);
        lemma_positive_denominators(c[l], raw_sum(mrow, n));
        lemma_positive_denominators(c[l], t);
        lemma_same_value_trans(row(l), raw_mul(c[l], raw_sum(mrow, n)), ct(l));
    }
    lemma_sum_congruent(row, ct, n);
    lemma_termination_mass_sum(s, c, n);
    lemma_sum_extensional(ct, |l: int| raw_mul(c[l], s.terminating_probabilities[l]@), n);
    // chain: mass ~ sum of rows ~ sum of columns ~ sum of unit ~ 1
    lemma_same_value_trans(raw_sum(ct, n), raw_sum(row, n), raw_sum(col, n));
    lemma_same_value_trans(raw_sum(ct, n), raw_sum(col, n), raw_sum(unit, n));
    lemma_same_value_trans(raw_sum(ct, n), raw_sum(unit, n), frac_one());
}

/// Smoothing adds the binary entropy of the smoothing factor to the entropy
/// of a valid SDFA: with its expected numbers of visits `c` and non-negative
/// termination probabilities, the entropy smoothed by `0 <= lambda <= 1` equals
/// the plain entropy plus `-(1 - lambda) log2(1 - lambda) - lambda log2(lambda)`.
pub proof fn lemma_smoothed_model_entropy(s: Sdfa, lambda: FracValue, c: Seq<FracValue>)
    requires
        s.wf(),
        is_valid(s),
        solves_visits_equation(s, c),
        forall|l: int| 0 <= l < c.len() ==> (#[trigger] c[l]).den > 0,
        forall|i: int| 0 <= i < s.num_transitions() ==> (#[trigger] s.probabilities[i]@).den > 0,
        forall|l: int|
            0 <= l < s.num_states() ==> is_reduced(#[trigger] s.terminating_probabilities[l]@)
                && s.terminating_probabilities[l]@.num >= 0,
        is_reduced(lambda),
        0 <= lambda.num <= lambda.den,
    ensures
        same_sum(
            sdfa_entropy_terms(s, lambda, c),
            sdfa_entropy_terms(s, frac_zero(), c) + binary_entropy_terms(lambda),
        ),
{
    assert forall|l: int| 0 <= l < s.num_states() implies (#[trigger] s.terminating_probabilities[l]@).den > 0 by {
        assert(is_reduced(s.terminating_probabilities[l]@));
    }
    lemma_termination_mass_is_one(s, c);
    lemma_smoothed_sdfa_entropy(s, lambda, c);
}

} // verus!
