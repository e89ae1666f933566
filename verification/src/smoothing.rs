//! Smoothing adds the binary entropy of the smoothing factor: for a
//! distribution of traces, the entropy smoothed by `lambda` is the plain
//! entropy plus `-(1 - lambda) log2(1 - lambda) - lambda log2(lambda)`.
//! Also: the entropy of a language does not depend on the order of its traces.

use vstd::prelude::*;
use crate::automaton::Sdfa;
use crate::entropy::{StochasticLanguage, entropy_terms, language_entropy_terms, one_minus, smoothed_entropy_terms};
use crate::fraction::{FracValue, frac_mul, frac_one, frac_zero, gcd, is_reduced, normalize};
use crate::logdiv::{
    LogTerm, coefficient, is_prime, lemma_coefficient_concat, valuation, lemma_raw_add_assoc, raw_add, same_sum,
    scale_terms, term_coefficient,
};
use crate::model_entropy::{sdfa_entropy_terms, state_term, termination_terms, transition_terms};
use crate::rational::{
    exponent, lemma_add_commutes, lemma_add_congruent, lemma_exponent_mul, lemma_exponent_normalize,
    lemma_mul_associates, lemma_mul_commutes, lemma_mul_congruent, lemma_mul_distributes, lemma_normalize_same_value, lemma_positive_denominators,
    is_permutation, lemma_same_value_trans, lemma_sum_extensional, lemma_sum_permute, raw_mul, raw_sum,
    same_value,
};

verus! {

/// Entropy terms of the two-outcome distribution `(1 - lambda, lambda)`.
pub open spec fn binary_entropy_terms(lambda: FracValue) -> Seq<LogTerm> {
    entropy_terms(one_minus(lambda)) + entropy_terms(lambda)
}

/// Sum of the probabilities of the first `k` traces (not reduced).
pub open spec fn probability_sum(lang: StochasticLanguage, k: int) -> FracValue
    decreases k,
{
    if k <= 0 {
        frac_zero()
    } else {
        raw_add(probability_sum(lang, k - 1), lang.probability(k - 1))
    }
}

/// The probabilities of the language form a distribution: each is in lowest
/// terms and not negative, and together they sum to one.
pub open spec fn is_distribution(lang: StochasticLanguage) -> bool {
    &&& forall|i: int|
        0 <= i < lang.len() ==> is_reduced(#[trigger] lang.probability(i)) && lang.probability(i).num >= 0
    &&& same_value(probability_sum(lang, lang.len() as int), frac_one())
}

/// `-u * k` as a fraction over `u`'s denominator.
spec fn neg_scaled(u: FracValue, k: int) -> FracValue {
    FracValue { num: (-u.num) * k, den: u.den }
}

/// The coefficient of a prime in the entropy contribution of `u`.
proof fn lemma_entropy_coefficient(u: FracValue, q: nat)
    requires
        u.num != 0,
        u.den > 0,
    ensures
        same_value(coefficient(entropy_terms(u), q), neg_scaled(u, exponent(u, q))),
        coefficient(entropy_terms(u), q).den > 0,
{
    let t = LogTerm { weight: FracValue { num: -u.num, den: u.den }, argument: u };
    assert(entropy_terms(u) == seq![t]);
    assert(seq![t].drop_last() =~= Seq::<LogTerm>::empty());
    assert(seq![t].last() == t);
    assert(coefficient(Seq::<LogTerm>::empty(), q) == frac_zero());
    let tc = term_coefficient(t, q);
    assert(coefficient(seq![t], q) == raw_add(frac_zero(), tc));
    assert(tc == neg_scaled(u, exponent(u, q)));
    assert((0 * tc.den + tc.num * 1) * tc.den == tc.num * (1 * tc.den));
}

proof fn lemma_neg_scaled_congruent(u: FracValue, v: FracValue, k: int)
    requires
        same_value(u, v),
    ensures
        same_value(neg_scaled(u, k), neg_scaled(v, k)),
{
    assert(((-u.num) * k) * v.den == ((-v.num) * k) * u.den) by (nonlinear_arith)
        requires
            u.num * v.den == v.num * u.den,
    ;
}

proof fn lemma_monomial_five(x: int, y: int, k: int, z: int, w: int)
    by (nonlinear_arith)
    ensures
        ((-(x * y)) * k) * (z * w) == (-(x * z)) * ((y * w) * k),
{
}

proof fn lemma_monomial_four(x: int, k: int, z: int, m: int)
    by (nonlinear_arith)
    ensures
        ((-x) * k) * (z * m) == (-(x * z)) * (k * m),
{
}

proof fn lemma_negate_product(y: int, k: int, w: int)
    by (nonlinear_arith)
    ensures
        ((-y) * k) * w == -((y * w) * k),
{
}

proof fn lemma_expand_smoothed(pn: int, pd: int, on: int, od: int, ln: int, ld: int, ep: int, eo: int, el: int)
    ensures
        ((-(pn * on)) * (ep + eo)) * (pd * ld) + ((-(pn * ln)) * (ep + el)) * (pd * od) == (-(pn * pd)) * (ep
            * (on * ld + ln * od) + (on * ld) * eo + (ln * od) * el),
{
    let n = -(pn * pd);
    lemma_monomial_five(pn, on, ep + eo, pd, ld);
    lemma_monomial_five(pn, ln, ep + el, pd, od);
    vstd::arithmetic::mul::lemma_mul_is_distributive_add(on * ld, ep, eo);
    vstd::arithmetic::mul::lemma_mul_is_distributive_add(ln * od, ep, el);
    vstd::arithmetic::mul::lemma_mul_is_distributive_add(ep, on * ld, ln * od);
    vstd::arithmetic::mul::lemma_mul_is_commutative(on * ld, ep);
    vstd::arithmetic::mul::lemma_mul_is_commutative(ln * od, ep);
    vstd::arithmetic::mul::lemma_mul_is_distributive_add(n, (on * ld) * (ep + eo), (ln * od) * (ep + el));
}

proof fn lemma_expand_split(pn: int, pd: int, on: int, od: int, ln: int, ld: int, ep: int, eo: int, el: int)
    ensures
        ((-pn) * ep) * (pd * (od * ld)) + (pn * (((-on) * eo) * ld + ((-ln) * el) * od)) * pd == (-(pn * pd))
            * (ep * (od * ld) + (on * ld) * eo + (ln * od) * el),
{
    let n = -(pn * pd);
    let s = ((-on) * eo) * ld + ((-ln) * el) * od;
    lemma_monomial_four(pn, ep, pd, od * ld);
    lemma_negate_product(on, eo, ld);
    lemma_negate_product(ln, el, od);
    assert((pn * s) * pd == n * ((on * ld) * eo + (ln * od) * el)) by (nonlinear_arith)
        requires
            s == -((on * ld) * eo) + -((ln * od) * el),
            n == -(pn * pd),
    ;
    vstd::arithmetic::mul::lemma_mul_is_distributive_add(n, ep * (od * ld), (on * ld) * eo + (ln * od) * el);
}

proof fn lemma_same_denominator(pd: int, od: int, ld: int)
    by (nonlinear_arith)
    ensures
        (pd * od) * (pd * ld) == pd * (pd * (od * ld)),
{
}

/// For one probability `p`, the smoothed entropy contribution has the
/// coefficient of the plain contribution plus `p` times that of the binary
/// entropy of `lambda`.
proof fn lemma_smoothed_trace(p: FracValue, lambda: FracValue, q: nat)
    requires
        is_prime(q),
        is_reduced(p),
        p.num >= 0,
        is_reduced(lambda),
        0 < lambda.num < lambda.den,
    ensures
        same_value(
            coefficient(smoothed_entropy_terms(p, lambda), q),
            raw_add(coefficient(entropy_terms(p), q), raw_mul(p, coefficient(binary_entropy_terms(lambda), q))),
        ),
        coefficient(smoothed_entropy_terms(p, lambda), q).den > 0,
        coefficient(entropy_terms(p), q).den > 0,
        coefficient(binary_entropy_terms(lambda), q).den > 0,
{
    let om = one_minus(lambda);
    let (ln, ld) = (lambda.num, lambda.den);
    lemma_exponent_normalize(q, 1 * ld - ln * 1, 1 * ld);
    lemma_normalize_same_value(1 * ld - ln * 1, 1 * ld);
    let (on, od) = (om.num, om.den);
    assert(on * ld + ln * od == od * ld) by (nonlinear_arith)
        requires
            on * (1 * ld) == (1 * ld - ln * 1) * od,
    ;
    lemma_entropy_coefficient(om, q);
    lemma_entropy_coefficient(lambda, q);
    let bt = binary_entropy_terms(lambda);
    lemma_coefficient_concat(entropy_terms(om), entropy_terms(lambda), q);
    let b = coefficient(bt, q);
    let eo = exponent(om, q);
    let el = exponent(lambda, q);
    lemma_add_congruent(
        coefficient(entropy_terms(om), q),
        neg_scaled(om, eo),
        coefficient(entropy_terms(lambda), q),
        neg_scaled(lambda, el),
    );
    lemma_positive_denominators(coefficient(entropy_terms(om), q), coefficient(entropy_terms(lambda), q));
    lemma_positive_denominators(p, om);
    lemma_positive_denominators(p, lambda);
    if p.num == 0 {
        crate::fraction::lemma_normalize_zero(p.den * od);
        crate::fraction::lemma_normalize_zero(p.den * ld);
        assert(0 * on == 0 && 0 * ln == 0) by (nonlinear_arith);
        assert(frac_mul(p, om).num == 0);
        assert(frac_mul(p, lambda).num == 0);
        assert(smoothed_entropy_terms(p, lambda) =~= Seq::<LogTerm>::empty());
        assert(entropy_terms(p) =~= Seq::<LogTerm>::empty());
        lemma_positive_denominators(p, b);
        let m = raw_mul(p, b);
        assert(p.num * b.num == 0) by (nonlinear_arith)
            requires
                p.num == 0,
        ;
        assert(m.num == 0);
        assert(p.den * b.den > 0) by (nonlinear_arith)
            requires
                p.den > 0,
                b.den > 0,
        ;
    } else {
        let (pn, pd) = (p.num, p.den);
        let ep = exponent(p, q);
        assert(raw_mul(p, om).den == pd * od && raw_mul(p, lambda).den == pd * ld);
        let u1 = frac_mul(p, om);
        let u2 = frac_mul(p, lambda);
        lemma_exponent_mul(q, p, om);
        lemma_exponent_mul(q, p, lambda);
        lemma_normalize_same_value(pn * on, pd * od);
        lemma_normalize_same_value(pn * ln, pd * ld);
        lemma_entropy_coefficient(u1, q);
        lemma_entropy_coefficient(u2, q);
        lemma_entropy_coefficient(p, q);
        lemma_coefficient_concat(entropy_terms(u1), entropy_terms(u2), q);
        // the smoothed side, as an explicit fraction
        lemma_neg_scaled_congruent(u1, raw_mul(p, om), ep + eo);
        lemma_neg_scaled_congruent(u2, raw_mul(p, lambda), ep + el);
        lemma_same_value_trans(
            coefficient(entropy_terms(u1), q),
            neg_scaled(u1, ep + eo),
            neg_scaled(raw_mul(p, om), ep + eo),
        );
        lemma_same_value_trans(
            coefficient(entropy_terms(u2), q),
            neg_scaled(u2, ep + el),
            neg_scaled(raw_mul(p, lambda), ep + el),
        );
        let lhs = raw_add(neg_scaled(raw_mul(p, om), ep + eo), neg_scaled(raw_mul(p, lambda), ep + el));
        lemma_add_congruent(
            coefficient(entropy_terms(u1), q),
            neg_scaled(raw_mul(p, om), ep + eo),
            coefficient(entropy_terms(u2), q),
            neg_scaled(raw_mul(p, lambda), ep + el),
        );
        // the split side, as an explicit fraction
        let bb = raw_add(neg_scaled(om, eo), neg_scaled(lambda, el));
        let rhs = raw_add(neg_scaled(p, ep), raw_mul(p, bb));
        lemma_mul_congruent(p, p, b, bb);
        lemma_add_congruent(coefficient(entropy_terms(p), q), neg_scaled(p, ep), raw_mul(p, b), raw_mul(p, bb));
        // the two explicit fractions are equal
        lemma_expand_smoothed(pn, pd, on, od, ln, ld, ep, eo, el);
        lemma_expand_split(pn, pd, on, od, ln, ld, ep, eo, el);
        lemma_same_denominator(pd, od, ld);
        assert(lhs.num == rhs.num);
        assert(lhs.den == rhs.den);
        assert(same_value(lhs, rhs));
        lemma_positive_denominators(u1, u2);
        lemma_positive_denominators(p, om);
        lemma_positive_denominators(p, lambda);
        lemma_positive_denominators(raw_mul(p, om), raw_mul(p, lambda));
        lemma_positive_denominators(coefficient(entropy_terms(u1), q), coefficient(entropy_terms(u2), q));
        lemma_positive_denominators(p, b);
        lemma_positive_denominators(coefficient(entropy_terms(p), q), raw_mul(p, b));
        lemma_same_value_trans(coefficient(smoothed_entropy_terms(p, lambda), q), lhs, rhs);
        lemma_same_value_trans(
            coefficient(smoothed_entropy_terms(p, lambda), q),
            rhs,
            raw_add(coefficient(entropy_terms(p), q), raw_mul(p, b)),
        );
    }
}

/// `s * b + p * b` has the value of `(s + p) * b`.
proof fn lemma_distributes_right(s: FracValue, p: FracValue, b: FracValue)
    requires
        s.den > 0,
        p.den > 0,
        b.den > 0,
    ensures
        same_value(raw_add(raw_mul(s, b), raw_mul(p, b)), raw_mul(raw_add(s, p), b)),
{
    lemma_positive_denominators(s, p);
    lemma_positive_denominators(s, b);
    lemma_positive_denominators(p, b);
    lemma_positive_denominators(b, s);
    lemma_positive_denominators(b, p);
    lemma_positive_denominators(raw_add(s, p), b);
    lemma_positive_denominators(b, raw_add(s, p));
    lemma_mul_commutes(raw_add(s, p), b);
    lemma_mul_distributes(b, s, p);
    lemma_mul_commutes(b, s);
    lemma_mul_commutes(b, p);
    lemma_add_congruent(raw_mul(b, s), raw_mul(s, b), raw_mul(b, p), raw_mul(p, b));
    lemma_positive_denominators(raw_mul(b, s), raw_mul(b, p));
    lemma_same_value_trans(raw_mul(raw_add(s, p), b), raw_mul(b, raw_add(s, p)), raw_add(raw_mul(b, s), raw_mul(b, p)));
    lemma_same_value_trans(raw_mul(raw_add(s, p), b), raw_add(raw_mul(b, s), raw_mul(b, p)), raw_add(raw_mul(s, b), raw_mul(p, b)));
}

/// Adding `e + p * b` to `c + s * b` gives `(c + e) + (s + p) * b`.
proof fn lemma_accumulate(x: FracValue, y: FracValue, c: FracValue, e: FracValue, s: FracValue, p: FracValue, b: FracValue)
    requires
        same_value(x, raw_add(c, raw_mul(s, b))),
        same_value(y, raw_add(e, raw_mul(p, b))),
        c.den > 0,
        e.den > 0,
        s.den > 0,
        p.den > 0,
        b.den > 0,
    ensures
        same_value(raw_add(x, y), raw_add(raw_add(c, e), raw_mul(raw_add(s, p), b))),
{
    let sb = raw_mul(s, b);
    let pb = raw_mul(p, b);
    lemma_positive_denominators(s, b);
    lemma_positive_denominators(p, b);
    lemma_positive_denominators(c, sb);
    lemma_positive_denominators(e, pb);
    lemma_positive_denominators(sb, e);
    lemma_positive_denominators(e, sb);
    lemma_positive_denominators(sb, pb);
    lemma_positive_denominators(raw_add(sb, e), pb);
    lemma_positive_denominators(raw_add(e, sb), pb);
    lemma_positive_denominators(e, raw_add(sb, pb));
    lemma_positive_denominators(c, e);
    lemma_positive_denominators(s, p);
    lemma_positive_denominators(raw_add(s, p), b);
    // x + y ~ (c + sb) + (e + pb)
    lemma_add_congruent(x, raw_add(c, sb), y, raw_add(e, pb));
    // (c + sb) + (e + pb) == c + ((sb + e) + pb)
    lemma_raw_add_assoc(c, sb, raw_add(e, pb));
    lemma_raw_add_assoc(sb, e, pb);
    // (sb + e) + pb ~ (e + sb) + pb == e + (sb + pb)
    lemma_add_commutes(sb, e);
    lemma_add_congruent(raw_add(sb, e), raw_add(e, sb), pb, pb);
    lemma_raw_add_assoc(e, sb, pb);
    // c + (e + (sb + pb)) == (c + e) + (sb + pb)
    lemma_add_congruent(c, c, raw_add(raw_add(sb, e), pb), raw_add(e, raw_add(sb, pb)));
    lemma_raw_add_assoc(c, e, raw_add(sb, pb));
    // sb + pb ~ (s + p) * b
    lemma_distributes_right(s, p, b);
    lemma_add_congruent(raw_add(c, e), raw_add(c, e), raw_add(sb, pb), raw_mul(raw_add(s, p), b));
    let m1 = raw_add(raw_add(c, sb), raw_add(e, pb));
    let m2 = raw_add(raw_add(c, e), raw_add(sb, pb));
    lemma_positive_denominators(raw_add(c, sb), raw_add(e, pb));
    lemma_positive_denominators(raw_add(sb, e), pb);
    lemma_positive_denominators(c, raw_add(raw_add(sb, e), pb));
    lemma_positive_denominators(raw_add(c, e), raw_add(sb, pb));
    lemma_same_value_trans(raw_add(x, y), m1, m2);
    lemma_same_value_trans(raw_add(x, y), m2, raw_add(raw_add(c, e), raw_mul(raw_add(s, p), b)));
}

/// The first `k` traces: the smoothed entropy has the coefficients of the
/// plain entropy plus the probability of those traces times the binary entropy.
proof fn lemma_smoothed_prefix(lang: StochasticLanguage, lambda: FracValue, q: nat, k: int)
    requires
        is_prime(q),
        0 <= k <= lang.len(),
        forall|i: int|
            0 <= i < lang.len() ==> is_reduced(#[trigger] lang.probability(i)) && lang.probability(i).num >= 0,
        is_reduced(lambda),
        0 < lambda.num < lambda.den,
    ensures
        same_value(
            coefficient(language_entropy_terms(lang, lambda, k), q),
            raw_add(
                coefficient(language_entropy_terms(lang, frac_zero(), k), q),
                raw_mul(probability_sum(lang, k), coefficient(binary_entropy_terms(lambda), q)),
            ),
        ),
        coefficient(language_entropy_terms(lang, frac_zero(), k), q).den > 0,
        probability_sum(lang, k).den > 0,
    decreases k,
{
    let b = coefficient(binary_entropy_terms(lambda), q);
    if k == 0 {
        reveal_with_fuel(crate::fraction::gcd, 2);
        assert(is_reduced(frac_one()));
        lemma_smoothed_trace(frac_one(), lambda, q);
        assert(coefficient(Seq::<LogTerm>::empty(), q) == frac_zero());
        assert(language_entropy_terms(lang, lambda, 0) =~= Seq::<LogTerm>::empty());
        assert(language_entropy_terms(lang, frac_zero(), 0) =~= Seq::<LogTerm>::empty());
        assert(0 * b.num == 0) by (nonlinear_arith);
        assert(0 * (1 * b.den) == 0) by (nonlinear_arith);
    } else {
        lemma_smoothed_prefix(lang, lambda, q, k - 1);
        let p = lang.probability(k - 1);
        assert(is_reduced(p) && p.num >= 0);
        lemma_smoothed_trace(p, lambda, q);
        assert(smoothed_entropy_terms(p, frac_zero()) == entropy_terms(p));
        lemma_coefficient_concat(language_entropy_terms(lang, lambda, k - 1), smoothed_entropy_terms(p, lambda), q);
        lemma_coefficient_concat(language_entropy_terms(lang, frac_zero(), k - 1), entropy_terms(p), q);
        lemma_accumulate(
            coefficient(language_entropy_terms(lang, lambda, k - 1), q),
            coefficient(smoothed_entropy_terms(p, lambda), q),
            coefficient(language_entropy_terms(lang, frac_zero(), k - 1), q),
            coefficient(entropy_terms(p), q),
            probability_sum(lang, k - 1),
            p,
            b,
        );
        lemma_positive_denominators(coefficient(language_entropy_terms(lang, frac_zero(), k - 1), q), coefficient(entropy_terms(p), q));
        lemma_positive_denominators(probability_sum(lang, k - 1), p);
    }
}

proof fn lemma_smoothed_language_entropy_inner(lang: StochasticLanguage, lambda: FracValue)
    requires
        is_distribution(lang),
        is_reduced(lambda),
        0 < lambda.num < lambda.den,
    ensures
        same_sum(
            language_entropy_terms(lang, lambda, lang.len() as int),
            language_entropy_terms(lang, frac_zero(), lang.len() as int) + binary_entropy_terms(lambda),
        ),
{
    let n = lang.len() as int;
    assert forall|q: nat| is_prime(q) implies (#[trigger] coefficient(language_entropy_terms(lang, lambda, n), q)).num
        * coefficient(language_entropy_terms(lang, frac_zero(), n) + binary_entropy_terms(lambda), q).den
        == coefficient(language_entropy_terms(lang, frac_zero(), n) + binary_entropy_terms(lambda), q).num
        * coefficient(language_entropy_terms(lang, lambda, n), q).den by {
        let b = coefficient(binary_entropy_terms(lambda), q);
        let c = coefficient(language_entropy_terms(lang, frac_zero(), n), q);
        let s = probability_sum(lang, n);
        lemma_smoothed_prefix(lang, lambda, q, n);
        reveal_with_fuel(crate::fraction::gcd, 2);
        assert(is_reduced(frac_one()));
        lemma_smoothed_trace(frac_one(), lambda, q);
        lemma_coefficient_concat(language_entropy_terms(lang, frac_zero(), n), binary_entropy_terms(lambda), q);
        // s ~ 1, so c + s * b ~ c + b
        lemma_mul_congruent(s, frac_one(), b, b);
        assert(same_value(raw_mul(frac_one(), b), b));
        lemma_positive_denominators(frac_one(), b);
        lemma_same_value_trans(raw_mul(s, b), raw_mul(frac_one(), b), b);
        lemma_add_congruent(c, c, raw_mul(s, b), b);
        lemma_positive_denominators(s, b);
        lemma_positive_denominators(c, raw_mul(s, b));
        lemma_same_value_trans(
            coefficient(language_entropy_terms(lang, lambda, n), q),
            raw_add(c, raw_mul(s, b)),
            raw_add(c, b),
        );
    }
}

proof fn lemma_scaled_term_value(fn_: int, fd: int, cn: int, cd: int, wn: int, wd: int, e: int)
    by (nonlinear_arith)
    requires
        fn_ * (cd * wd) == (cn * wn) * fd,
    ensures
        (fn_ * e) * (cd * wd) == (cn * (wn * e)) * fd,
{
}

/// Scaling every weight by `c` scales every coefficient by `c`.
pub(crate) proof fn lemma_scale_coefficient(ts: Seq<LogTerm>, c: FracValue, q: nat)
    requires
        c.den > 0,
        forall|i: int| 0 <= i < ts.len() ==> (#[trigger] ts[i]).weight.den > 0,
    ensures
        same_value(coefficient(scale_terms(ts, c), q), raw_mul(c, coefficient(ts, q))),
        coefficient(ts, q).den > 0,
        coefficient(scale_terms(ts, c), q).den > 0,
    decreases ts.len(),
{
    if ts.len() == 0 {
        assert(scale_terms(ts, c) =~= Seq::<LogTerm>::empty());
        assert(c.num * 0 == 0) by (nonlinear_arith);
        assert(c.den * 1 > 0);
        assert(coefficient(ts, q) == frac_zero());
        assert(coefficient(scale_terms(ts, c), q) == frac_zero());
        assert(0 * (c.den * 1) == (c.num * 0) * 1) by (nonlinear_arith);
    } else {
        let init = ts.drop_last();
        let t = ts.last();
        let w = t.weight;
        assert(scale_terms(ts, c).drop_last() =~= scale_terms(init, c));
        assert(scale_terms(ts, c).last() == LogTerm { weight: frac_mul(c, w), argument: t.argument });
        assert forall|i: int| 0 <= i < init.len() implies (#[trigger] init[i]).weight.den > 0 by {
            assert(init[i] == ts[i]);
        }
        lemma_scale_coefficient(init, c, q);
        let fm = frac_mul(c, w);
        assert(w.den > 0) by {
            assert(ts[ts.len() - 1] == t);
        }
        lemma_positive_denominators(c, w);
        lemma_normalize_same_value(c.num * w.num, c.den * w.den);
        let e = exponent(t.argument, q);
        let tc = term_coefficient(t, q);
        let tc2 = term_coefficient(scale_terms(ts, c).last(), q);
        assert(tc == FracValue { num: w.num * e, den: w.den });
        assert(tc2 == FracValue { num: fm.num * e, den: fm.den });
        lemma_scaled_term_value(fm.num, fm.den, c.num, c.den, w.num, w.den, e);
        assert(same_value(tc2, raw_mul(c, tc)));
        let a = coefficient(init, q);
        let a2 = coefficient(scale_terms(init, c), q);
        lemma_add_congruent(a2, raw_mul(c, a), tc2, raw_mul(c, tc));
        lemma_mul_distributes(c, a, tc);
        lemma_positive_denominators(c, a);
        lemma_positive_denominators(c, tc);
        lemma_positive_denominators(raw_mul(c, a), raw_mul(c, tc));
        lemma_positive_denominators(a, tc);
        lemma_positive_denominators(a2, tc2);
        lemma_same_value_trans(raw_add(a2, tc2), raw_add(raw_mul(c, a), raw_mul(c, tc)), raw_mul(c, raw_add(a, tc)));
        assert(coefficient(ts, q) == raw_add(a, tc));
        assert(coefficient(scale_terms(ts, c), q) == raw_add(a2, tc2));
    }
}

/// `sum_{st < k} c[st] * t[st]`, with `t` the termination probabilities (not
/// reduced): the probability of terminating when state `st` is visited
/// `c[st]` times on average.
pub open spec fn termination_mass(s: Sdfa, c: Seq<FracValue>, k: int) -> FracValue
    decreases k,
{
    if k <= 0 {
        frac_zero()
    } else {
        raw_add(termination_mass(s, c, k - 1), raw_mul(c[k - 1], s.terminating_probabilities[k - 1]@))
    }
}

pub(crate) proof fn lemma_entropy_weights_positive(u: FracValue)
    requires
        u.den > 0,
    ensures
        forall|i: int| 0 <= i < entropy_terms(u).len() ==> (#[trigger] entropy_terms(u)[i]).weight.den > 0,
{
}

/// For one state, the smoothed termination terms have the coefficient of the
/// plain ones plus `c[st] * t[st]` times that of the binary entropy.
proof fn lemma_smoothed_state(s: Sdfa, lambda: FracValue, c: Seq<FracValue>, st: int, q: nat)
    requires
        is_prime(q),
        0 <= st < s.num_states(),
        st < c.len(),
        c[st].den > 0,
        is_reduced(s.terminating_probabilities[st]@),
        s.terminating_probabilities[st]@.num >= 0,
        is_reduced(lambda),
        0 < lambda.num < lambda.den,
    ensures
        same_value(
            coefficient(state_term(s, lambda, c, st), q),
            raw_add(
                coefficient(state_term(s, frac_zero(), c, st), q),
                raw_mul(raw_mul(c[st], s.terminating_probabilities[st]@), coefficient(binary_entropy_terms(lambda), q)),
            ),
        ),
        coefficient(state_term(s, frac_zero(), c, st), q).den > 0,
{
    let t = s.terminating_probabilities[st]@;
    let cs = c[st];
    let b = coefficient(binary_entropy_terms(lambda), q);
    lemma_smoothed_trace(t, lambda, q);
    lemma_positive_denominators(cs, t);
    lemma_positive_denominators(raw_mul(cs, t), b);
    if t.num == 0 {
        assert(state_term(s, lambda, c, st) =~= Seq::<LogTerm>::empty());
        assert(state_term(s, frac_zero(), c, st) =~= Seq::<LogTerm>::empty());
        assert(coefficient(Seq::<LogTerm>::empty(), q) == frac_zero());
        assert(cs.num * t.num == 0) by (nonlinear_arith)
            requires
                t.num == 0,
        ;
        assert((cs.num * t.num) * b.num == 0) by (nonlinear_arith)
            requires
                cs.num * t.num == 0,
        ;
        let m = raw_mul(raw_mul(cs, t), b);
        assert(0 * (1 * m.den) + m.num * 1 == 0);
    } else {
        let om = one_minus(lambda);
        let u1 = frac_mul(t, om);
        let u2 = frac_mul(t, lambda);
        let sm = smoothed_entropy_terms(t, lambda);
        let e = entropy_terms(t);
        assert(state_term(s, lambda, c, st) =~= scale_terms(sm, cs));
        assert(state_term(s, frac_zero(), c, st) == scale_terms(e, cs));
        lemma_normalize_same_value(1 * lambda.den - lambda.num * 1, 1 * lambda.den);
        lemma_positive_denominators(t, om);
        lemma_positive_denominators(t, lambda);
        lemma_normalize_same_value(t.num * om.num, t.den * om.den);
        lemma_normalize_same_value(t.num * lambda.num, t.den * lambda.den);
        lemma_entropy_weights_positive(u1);
        lemma_entropy_weights_positive(u2);
        lemma_entropy_weights_positive(t);
        assert forall|i: int| 0 <= i < sm.len() implies (#[trigger] sm[i]).weight.den > 0 by {
            if i < entropy_terms(u1).len() {
                assert(sm[i] == entropy_terms(u1)[i]);
            } else {
                assert(sm[i] == entropy_terms(u2)[i - entropy_terms(u1).len()]);
            }
        }
        lemma_scale_coefficient(sm, cs, q);
        lemma_scale_coefficient(e, cs, q);
        let ce = coefficient(e, q);
        let tb = raw_mul(t, b);
        // cs * coef(sm) ~ cs * (ce + t b) ~ cs ce + cs (t b)
        lemma_mul_congruent(cs, cs, coefficient(sm, q), raw_add(ce, tb));
        lemma_mul_distributes(cs, ce, tb);
        // cs (t b) ~ (cs t) b ; cs ce ~ coef(scale(e, cs))
        lemma_mul_associates(cs, t, b);
        lemma_add_congruent(raw_mul(cs, ce), coefficient(scale_terms(e, cs), q), raw_mul(cs, tb), raw_mul(raw_mul(cs, t), b));
        lemma_positive_denominators(t, b);
        lemma_positive_denominators(ce, tb);
        lemma_positive_denominators(cs, raw_add(ce, tb));
        lemma_positive_denominators(cs, ce);
        lemma_positive_denominators(cs, tb);
        lemma_positive_denominators(raw_mul(cs, ce), raw_mul(cs, tb));
        lemma_positive_denominators(cs, coefficient(sm, q));
        lemma_same_value_trans(coefficient(scale_terms(sm, cs), q), raw_mul(cs, coefficient(sm, q)), raw_mul(cs, raw_add(ce, tb)));
        lemma_same_value_trans(coefficient(scale_terms(sm, cs), q), raw_mul(cs, raw_add(ce, tb)), raw_add(raw_mul(cs, ce), raw_mul(cs, tb)));
        lemma_same_value_trans(
            coefficient(scale_terms(sm, cs), q),
            raw_add(raw_mul(cs, ce), raw_mul(cs, tb)),
            raw_add(coefficient(scale_terms(e, cs), q), raw_mul(raw_mul(cs, t), b)),
        );
    }
}

/// The first `k` states: smoothed termination terms against plain ones.
proof fn lemma_smoothed_states(s: Sdfa, lambda: FracValue, c: Seq<FracValue>, q: nat, k: int)
    requires
        is_prime(q),
        0 <= k <= s.num_states(),
        c.len() == s.num_states(),
        forall|st: int| 0 <= st < c.len() ==> (#[trigger] c[st]).den > 0,
        forall|st: int|
            0 <= st < s.num_states() ==> is_reduced(#[trigger] s.terminating_probabilities[st]@)
                && s.terminating_probabilities[st]@.num >= 0,
        is_reduced(lambda),
        0 < lambda.num < lambda.den,
    ensures
        same_value(
            coefficient(termination_terms(s, lambda, c, k), q),
            raw_add(
                coefficient(termination_terms(s, frac_zero(), c, k), q),
                raw_mul(termination_mass(s, c, k), coefficient(binary_entropy_terms(lambda), q)),
            ),
        ),
        coefficient(termination_terms(s, frac_zero(), c, k), q).den > 0,
        termination_mass(s, c, k).den > 0,
    decreases k,
{
    let b = coefficient(binary_entropy_terms(lambda), q);
    reveal_with_fuel(crate::fraction::gcd, 2);
    assert(is_reduced(frac_one()));
    lemma_smoothed_trace(frac_one(), lambda, q);
    if k == 0 {
        assert(coefficient(Seq::<LogTerm>::empty(), q) == frac_zero());
        assert(termination_terms(s, lambda, c, 0) =~= Seq::<LogTerm>::empty());
        assert(termination_terms(s, frac_zero(), c, 0) =~= Seq::<LogTerm>::empty());
        assert(0 * b.num == 0) by (nonlinear_arith);
        assert(0 * (1 * b.den) == 0) by (nonlinear_arith);
    } else {
        lemma_smoothed_states(s, lambda, c, q, k - 1);
        let st = k - 1;
        assert(c[st].den > 0);
        assert(is_reduced(s.terminating_probabilities[st]@) && s.terminating_probabilities[st]@.num >= 0);
        lemma_smoothed_state(s, lambda, c, st, q);
        lemma_coefficient_concat(termination_terms(s, lambda, c, k - 1), state_term(s, lambda, c, st), q);
        lemma_coefficient_concat(termination_terms(s, frac_zero(), c, k - 1), state_term(s, frac_zero(), c, st), q);
        let t = s.terminating_probabilities[st]@;
        lemma_positive_denominators(c[st], t);
        lemma_accumulate(
            coefficient(termination_terms(s, lambda, c, k - 1), q),
            coefficient(state_term(s, lambda, c, st), q),
            coefficient(termination_terms(s, frac_zero(), c, k - 1), q),
            coefficient(state_term(s, frac_zero(), c, st), q),
            termination_mass(s, c, k - 1),
            raw_mul(c[st], t),
            b,
        );
        lemma_positive_denominators(
            coefficient(termination_terms(s, frac_zero(), c, k - 1), q),
            coefficient(state_term(s, frac_zero(), c, st), q),
        );
        lemma_positive_denominators(termination_mass(s, c, k - 1), raw_mul(c[st], t));
    }
}

proof fn lemma_smoothed_sdfa_entropy_inner(s: Sdfa, lambda: FracValue, c: Seq<FracValue>)
    requires
        c.len() == s.num_states(),
        forall|st: int| 0 <= st < c.len() ==> (#[trigger] c[st]).den > 0,
        forall|st: int|
            0 <= st < s.num_states() ==> is_reduced(#[trigger] s.terminating_probabilities[st]@)
                && s.terminating_probabilities[st]@.num >= 0,
        same_value(termination_mass(s, c, s.num_states() as int), frac_one()),
        is_reduced(lambda),
        0 < lambda.num < lambda.den,
    ensures
        same_sum(
            sdfa_entropy_terms(s, lambda, c),
            sdfa_entropy_terms(s, frac_zero(), c) + binary_entropy_terms(lambda),
        ),
{
    let n = s.num_states() as int;
    let tt = transition_terms(s, c, s.num_transitions() as int);
    assert forall|q: nat| is_prime(q) implies (#[trigger] coefficient(sdfa_entropy_terms(s, lambda, c), q)).num
        * coefficient(sdfa_entropy_terms(s, frac_zero(), c) + binary_entropy_terms(lambda), q).den
        == coefficient(sdfa_entropy_terms(s, frac_zero(), c) + binary_entropy_terms(lambda), q).num
        * coefficient(sdfa_entropy_terms(s, lambda, c), q).den by {
        let b = coefficient(binary_entropy_terms(lambda), q);
        let c0 = coefficient(termination_terms(s, frac_zero(), c, n), q);
        let m = termination_mass(s, c, n);
        let x = coefficient(termination_terms(s, lambda, c, n), q);
        lemma_smoothed_states(s, lambda, c, q, n);
        reveal_with_fuel(crate::fraction::gcd, 2);
        assert(is_reduced(frac_one()));
        lemma_smoothed_trace(frac_one(), lambda, q);
        // x ~ c0 + m b ~ c0 + b
        lemma_mul_congruent(m, frac_one(), b, b);
        assert(same_value(raw_mul(frac_one(), b), b));
        lemma_positive_denominators(frac_one(), b);
        lemma_same_value_trans(raw_mul(m, b), raw_mul(frac_one(), b), b);
        lemma_add_congruent(c0, c0, raw_mul(m, b), b);
        lemma_positive_denominators(m, b);
        lemma_positive_denominators(c0, raw_mul(m, b));
        lemma_same_value_trans(x, raw_add(c0, raw_mul(m, b)), raw_add(c0, b));
        // add the transition terms on both sides
        let ct = coefficient(tt, q);
        lemma_add_congruent(ct, ct, x, raw_add(c0, b));
        lemma_coefficient_concat(tt, termination_terms(s, lambda, c, n), q);
        lemma_coefficient_concat(tt, termination_terms(s, frac_zero(), c, n), q);
        lemma_coefficient_concat(sdfa_entropy_terms(s, frac_zero(), c), binary_entropy_terms(lambda), q);
        lemma_raw_add_assoc(ct, c0, b);
    }
}

/// For `lambda` zero or one the binary entropy of `lambda` is zero.
proof fn lemma_degenerate_binary(lambda: FracValue, q: nat)
    requires
        is_prime(q),
        is_reduced(lambda),
        lambda.num == 0 || lambda.num == lambda.den,
    ensures
        coefficient(binary_entropy_terms(lambda), q).num == 0,
        lambda.num == 0 ==> lambda == frac_zero(),
        lambda.num != 0 ==> lambda == frac_one(),
{
    reveal_with_fuel(crate::fraction::gcd, 2);
    if lambda.num == 0 {
        assert(gcd(0, lambda.den as nat) == lambda.den);
    } else {
        assert(gcd(lambda.num as nat, lambda.den as nat) == gcd(lambda.den as nat, 0));
        vstd::arithmetic::div_mod::lemma_mod_self_0(lambda.den);
    }
    crate::fraction::lemma_normalize_constants();
    crate::fraction::lemma_normalize_zero(1);
    let om = one_minus(lambda);
    assert(valuation(q, 1) == 0) by {
        vstd::arithmetic::div_mod::lemma_small_mod(1, q);
    }
    let one_terms = entropy_terms(frac_one());
    let t = LogTerm { weight: FracValue { num: -1, den: 1 }, argument: frac_one() };
    assert(one_terms == seq![t]);
    assert(seq![t].drop_last() =~= Seq::<LogTerm>::empty());
    assert(seq![t].last() == t);
    assert(coefficient(Seq::<LogTerm>::empty(), q) == frac_zero());
    assert(term_coefficient(t, q).num == 0);
    assert(coefficient(one_terms, q).num == 0);
    if lambda.num == 0 {
        assert(binary_entropy_terms(lambda) =~= one_terms);
    } else {
        assert(binary_entropy_terms(lambda) =~= one_terms);
    }
}

/// `c + b` has the value of `c` when `b` is zero.
proof fn lemma_add_zero_numerator(c: FracValue, b: FracValue)
    requires
        b.num == 0,
    ensures
        same_value(raw_add(c, b), c),
{
    assert((c.num * b.den + b.num * c.den) * c.den == c.num * (c.den * b.den)) by (nonlinear_arith)
        requires
            b.num == 0,
    ;
}

/// For `lambda` zero or one, smoothing leaves the entropy terms of a
/// distribution's probabilities as they are.
proof fn lemma_degenerate_language(lang: StochasticLanguage, lambda: FracValue, k: int)
    requires
        0 <= k <= lang.len(),
        forall|i: int|
            0 <= i < lang.len() ==> is_reduced(#[trigger] lang.probability(i)) && lang.probability(i).num >= 0,
        lambda == frac_zero() || lambda == frac_one(),
    ensures
        language_entropy_terms(lang, lambda, k) == language_entropy_terms(lang, frac_zero(), k),
    decreases k,
{
    if k > 0 {
        lemma_degenerate_language(lang, lambda, k - 1);
        let p = lang.probability(k - 1);
        assert(is_reduced(p));
        if lambda == frac_one() {
            crate::fraction::lemma_normalize_zero(1);
            crate::fraction::lemma_normalize_constants();
            assert(1int * 1 - 1 * 1 == 0 && 1int * 1 == 1);
            assert(one_minus(lambda) == normalize(0, 1));
            assert(one_minus(lambda) == frac_zero());
            assert(p.num * 0 == 0 && p.num * 1 == p.num && p.den * 1 == p.den) by (nonlinear_arith);
            crate::fraction::lemma_normalize_zero(p.den * 1);
            crate::fraction::lemma_normalize_reduced(p);
            assert(frac_mul(p, lambda) == p);
            assert(frac_mul(p, one_minus(lambda)).num == 0);
            assert(smoothed_entropy_terms(p, lambda) =~= entropy_terms(p));
        }
    }
}

/// Smoothing adds the binary entropy of the smoothing factor: for a
/// distribution of traces and `0 <= lambda <= 1`, the entropy smoothed by
/// `lambda` equals the plain entropy plus
/// `-(1 - lambda) log2(1 - lambda) - lambda log2(lambda)`.
pub proof fn lemma_smoothed_language_entropy(lang: StochasticLanguage, lambda: FracValue)
    requires
        is_distribution(lang),
        is_reduced(lambda),
        0 <= lambda.num <= lambda.den,
    ensures
        same_sum(
            language_entropy_terms(lang, lambda, lang.len() as int),
            language_entropy_terms(lang, frac_zero(), lang.len() as int) + binary_entropy_terms(lambda),
        ),
{
    if 0 < lambda.num < lambda.den {
        lemma_smoothed_language_entropy_inner(lang, lambda);
    } else {
        let n = lang.len() as int;
        assert forall|q: nat| is_prime(q) implies (#[trigger] coefficient(language_entropy_terms(lang, lambda, n), q)).num
            * coefficient(language_entropy_terms(lang, frac_zero(), n) + binary_entropy_terms(lambda), q).den
            == coefficient(language_entropy_terms(lang, frac_zero(), n) + binary_entropy_terms(lambda), q).num
            * coefficient(language_entropy_terms(lang, lambda, n), q).den by {
            lemma_degenerate_binary(lambda, q);
            lemma_degenerate_language(lang, lambda, n);
            lemma_coefficient_concat(language_entropy_terms(lang, frac_zero(), n), binary_entropy_terms(lambda), q);
            lemma_add_zero_numerator(
                coefficient(language_entropy_terms(lang, frac_zero(), n), q),
                coefficient(binary_entropy_terms(lambda), q),
            );
        }
    }
}

/// For `lambda` zero or one, smoothing leaves the termination terms as they are.
proof fn lemma_degenerate_states(s: Sdfa, lambda: FracValue, c: Seq<FracValue>, k: int)
    requires
        0 <= k <= s.num_states(),
        forall|st: int|
            0 <= st < s.num_states() ==> is_reduced(#[trigger] s.terminating_probabilities[st]@)
                && s.terminating_probabilities[st]@.num >= 0,
        lambda == frac_zero() || lambda == frac_one(),
    ensures
        termination_terms(s, lambda, c, k) == termination_terms(s, frac_zero(), c, k),
    decreases k,
{
    if k > 0 {
        lemma_degenerate_states(s, lambda, c, k - 1);
        let t = s.terminating_probabilities[k - 1]@;
        assert(is_reduced(t));
        if lambda == frac_one() && t.num != 0 {
            crate::fraction::lemma_normalize_zero(1);
            crate::fraction::lemma_normalize_constants();
            assert(1int * 1 - 1 * 1 == 0 && 1int * 1 == 1);
            assert(one_minus(lambda) == normalize(0, 1));
            assert(t.num * 0 == 0 && t.num * 1 == t.num && t.den * 1 == t.den) by (nonlinear_arith);
            crate::fraction::lemma_normalize_zero(t.den * 1);
            crate::fraction::lemma_normalize_reduced(t);
            assert(frac_mul(t, lambda) == t);
            assert(frac_mul(t, one_minus(lambda)).num == 0);
            let cs = c[k - 1];
            assert(scale_terms(entropy_terms(frac_mul(t, one_minus(lambda))), cs) =~= Seq::<LogTerm>::empty());
            assert(state_term(s, lambda, c, k - 1) =~= state_term(s, frac_zero(), c, k - 1));
        }
    }
}

/// Smoothing adds the binary entropy of the smoothing factor to the entropy
/// of an SDFA too, for `0 <= lambda <= 1`, when the expected numbers of
/// visits `c` make the termination probabilities sum to one
/// (`sum_st c[st] * t[st] == 1`).
pub proof fn lemma_smoothed_sdfa_entropy(s: Sdfa, lambda: FracValue, c: Seq<FracValue>)
    requires
        c.len() == s.num_states(),
        forall|st: int| 0 <= st < c.len() ==> (#[trigger] c[st]).den > 0,
        forall|st: int|
            0 <= st < s.num_states() ==> is_reduced(#[trigger] s.terminating_probabilities[st]@)
                && s.terminating_probabilities[st]@.num >= 0,
        same_value(termination_mass(s, c, s.num_states() as int), frac_one()),
        is_reduced(lambda),
        0 <= lambda.num <= lambda.den,
    ensures
        same_sum(
            sdfa_entropy_terms(s, lambda, c),
            sdfa_entropy_terms(s, frac_zero(), c) + binary_entropy_terms(lambda),
        ),
{
    if 0 < lambda.num < lambda.den {
        lemma_smoothed_sdfa_entropy_inner(s, lambda, c);
    } else {
        let n = s.num_states() as int;
        assert forall|q: nat| is_prime(q) implies (#[trigger] coefficient(sdfa_entropy_terms(s, lambda, c), q)).num
            * coefficient(sdfa_entropy_terms(s, frac_zero(), c) + binary_entropy_terms(lambda), q).den
            == coefficient(sdfa_entropy_terms(s, frac_zero(), c) + binary_entropy_terms(lambda), q).num
            * coefficient(sdfa_entropy_terms(s, lambda, c), q).den by {
            lemma_degenerate_binary(lambda, q);
            lemma_degenerate_states(s, lambda, c, n);
            lemma_coefficient_concat(sdfa_entropy_terms(s, frac_zero(), c), binary_entropy_terms(lambda), q);
            lemma_add_zero_numerator(
                coefficient(sdfa_entropy_terms(s, frac_zero(), c), q),
                coefficient(binary_entropy_terms(lambda), q),
            );
        }
    }
}

/// `lang2` holds the traces of `lang`, with their probabilities, in the order
/// given by the permutation `perm`.
pub open spec fn is_reordering(lang2: StochasticLanguage, lang: StochasticLanguage, perm: Seq<int>) -> bool {
    &&& lang2.len() == lang.len()
    &&& is_permutation(perm, lang.len() as int)
    &&& forall|i: int|
        0 <= i < lang2.len() ==> lang2.trace(i) == lang.trace(perm[i]) && #[trigger] lang2.probability(i)
            == lang.probability(perm[i])
}

/// The coefficients of the smoothed contribution of a probability have a
/// positive denominator.
proof fn lemma_smoothed_coefficient_positive(p: FracValue, lambda: FracValue, q: nat)
    requires
        p.den > 0,
        lambda.den > 0,
    ensures
        coefficient(smoothed_entropy_terms(p, lambda), q).den > 0,
{
    let ts = smoothed_entropy_terms(p, lambda);
    lemma_normalize_same_value(1 * lambda.den - lambda.num * 1, 1 * lambda.den);
    let om = one_minus(lambda);
    lemma_positive_denominators(p, om);
    lemma_positive_denominators(p, lambda);
    lemma_normalize_same_value(p.num * om.num, p.den * om.den);
    lemma_normalize_same_value(p.num * lambda.num, p.den * lambda.den);
    let u1 = frac_mul(p, om);
    let u2 = frac_mul(p, lambda);
    lemma_entropy_weights_positive(p);
    lemma_entropy_weights_positive(u1);
    lemma_entropy_weights_positive(u2);
    assert forall|i: int| 0 <= i < ts.len() implies (#[trigger] ts[i]).weight.den > 0 by {
        if lambda.num != 0 {
            if i < entropy_terms(u1).len() {
                assert(ts[i] == entropy_terms(u1)[i]);
            } else {
                assert(ts[i] == entropy_terms(u2)[i - entropy_terms(u1).len()]);
            }
        }
    }
    reveal_with_fuel(crate::fraction::gcd, 2);
    lemma_scale_coefficient(ts, frac_one(), q);
}

/// The coefficients of a language's entropy are the sums of those of its traces.
proof fn lemma_language_coefficient(lang: StochasticLanguage, lambda: FracValue, q: nat, k: int)
    requires
        0 <= k <= lang.len(),
    ensures
        coefficient(language_entropy_terms(lang, lambda, k), q) == raw_sum(
            |i: int| coefficient(smoothed_entropy_terms(lang.probability(i), lambda), q),
            k,
        ),
    decreases k,
{
    if k > 0 {
        lemma_language_coefficient(lang, lambda, q, k - 1);
        lemma_coefficient_concat(
            language_entropy_terms(lang, lambda, k - 1),
            smoothed_entropy_terms(lang.probability(k - 1), lambda),
            q,
        );
    } else {
        assert(language_entropy_terms(lang, lambda, k) =~= Seq::<LogTerm>::empty());
        assert(coefficient(Seq::<LogTerm>::empty(), q) == frac_zero());
    }
}

/// The entropy of a language, smoothed or not, does not depend on the order
/// of its traces.
pub proof fn lemma_entropy_ignores_order(
    lang: StochasticLanguage,
    lang2: StochasticLanguage,
    perm: Seq<int>,
    lambda: FracValue,
)
    requires
        is_reordering(lang2, lang, perm),
        forall|i: int| 0 <= i < lang.len() ==> (#[trigger] lang.probability(i)).den > 0,
        lambda.den > 0,
    ensures
        same_sum(
            language_entropy_terms(lang2, lambda, lang2.len() as int),
            language_entropy_terms(lang, lambda, lang.len() as int),
        ),
{
    let n = lang.len() as int;
    assert forall|q: nat| is_prime(q) implies (#[trigger] coefficient(language_entropy_terms(lang2, lambda, n), q)).num
        * coefficient(language_entropy_terms(lang, lambda, n), q).den
        == coefficient(language_entropy_terms(lang, lambda, n), q).num
        * coefficient(language_entropy_terms(lang2, lambda, n), q).den by {
        let g = |i: int| coefficient(smoothed_entropy_terms(lang.probability(i), lambda), q);
        let g2 = |i: int| coefficient(smoothed_entropy_terms(lang2.probability(i), lambda), q);
        lemma_language_coefficient(lang, lambda, q, n);
        lemma_language_coefficient(lang2, lambda, q, n);
        assert forall|i: int| 0 <= i < n implies (#[trigger] g(i)).den > 0 by {
            lemma_smoothed_coefficient_positive(lang.probability(i), lambda, q);
        }
        assert forall|i: int| 0 <= i < n implies #[trigger] g2(i) == g(perm[i]) by {
            assert(lang2.probability(i) == lang.probability(perm[i]));
        }
        lemma_sum_permute(g, perm, n);
        lemma_sum_extensional(g2, |i: int| g(perm[i]), n);
        lemma_sum_extensional(g, |i: int| coefficient(smoothed_entropy_terms(lang.probability(i), lambda), q), n);
        lemma_sum_extensional(g2, |i: int| coefficient(smoothed_entropy_terms(lang2.probability(i), lambda), q), n);
    }
}

} // verus!
