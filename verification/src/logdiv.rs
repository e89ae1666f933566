//! Exact entropy values. A `LogDiv` is a sum of terms `w * log2(a)` with
//! rational weights `w` and positive rational arguments `a`, held as an
//! `ebi_arithmetic` log-polynomial (a map from primes to rational
//! coefficients). Its view is the sequence of terms that were combined to
//! build it; the polynomial's value is their sum.

use vstd::prelude::*;
use ebi_arithmetic::log_polynomial::log_polynomial_exact::LogPolynomialExact;
use ebi_arithmetic::log::LogOf;
use ebi_arithmetic::fraction::approximate::Approximate;
use ebi_arithmetic::Zero as EbiZero;
use crate::fraction::{FracValue, Fraction, abs_int, frac_mul, frac_zero};

verus! {

#[verifier::external_type_specification]
#[verifier::external_body]
pub struct ExLogPolynomialExact(LogPolynomialExact);

/// One term `weight * log2(argument)`.
pub struct LogTerm {
    pub weight: FracValue,
    pub argument: FracValue,
}

/// Number of times the prime `p` divides `n` (0 for `n == 0`).
pub open spec fn valuation(p: nat, n: nat) -> nat
    decreases n,
{
    if p <= 1 || n == 0 || n % p != 0 {
        0
    } else {
        proof {
            vstd::arithmetic::div_mod::lemma_div_decreases(n as int, p as int);
        }
        1 + valuation(p, n / p)
    }
}

pub open spec fn is_prime(q: nat) -> bool {
    q > 1 && forall|d: nat| 1 < d < q ==> #[trigger] (q % d) != 0
}

/// Sum of two fractions, not reduced.
pub open spec fn raw_add(a: FracValue, b: FracValue) -> FracValue {
    FracValue { num: a.num * b.den + b.num * a.den, den: a.den * b.den }
}

/// Coefficient of `log2(q)` contributed by one term, for a prime `q`:
/// `w * (v_q(numerator of a) - v_q(denominator of a))`.
pub open spec fn term_coefficient(t: LogTerm, q: nat) -> FracValue {
    FracValue {
        num: t.weight.num * (valuation(q, abs_int(t.argument.num)) - valuation(q, abs_int(t.argument.den))),
        den: t.weight.den,
    }
}

/// Coefficient of `log2(q)` in the sum of the terms, for a prime `q`.
pub open spec fn coefficient(ts: Seq<LogTerm>, q: nat) -> FracValue
    decreases ts.len(),
{
    if ts.len() == 0 {
        frac_zero()
    } else {
        raw_add(coefficient(ts.drop_last(), q), term_coefficient(ts.last(), q))
    }
}

/// The sum of the terms is zero: every prime has coefficient zero.
pub open spec fn sums_to_zero(ts: Seq<LogTerm>) -> bool {
    forall|q: nat| is_prime(q) ==> (#[trigger] coefficient(ts, q)).num == 0
}

/// The two sums of terms are equal: every prime has equal coefficients.
pub open spec fn same_sum(a: Seq<LogTerm>, b: Seq<LogTerm>) -> bool {
    forall|q: nat|
        is_prime(q) ==> (#[trigger] coefficient(a, q)).num * coefficient(b, q).den
            == coefficient(b, q).num * coefficient(a, q).den
}

/// The terms with negated weights.
pub open spec fn negate_terms(ts: Seq<LogTerm>) -> Seq<LogTerm> {
    ts.map_values(
        |t: LogTerm| LogTerm { weight: FracValue { num: -t.weight.num, den: t.weight.den }, argument: t.argument },
    )
}

/// The terms with their weights multiplied by `c`.
pub open spec fn scale_terms(ts: Seq<LogTerm>, c: FracValue) -> Seq<LogTerm> {
    ts.map_values(|t: LogTerm| LogTerm { weight: frac_mul(c, t.weight), argument: t.argument })
}

/// `x * log2(x)` can be computed exactly: `x` is positive and its numerator and
/// denominator (in lowest terms) are below 2^128.
pub open spec fn n_log_n_defined(x: FracValue) -> bool {
    0 < x.num < 0x1_0000_0000_0000_0000_0000_0000_0000_0000 && x.den < 0x1_0000_0000_0000_0000_0000_0000_0000_0000
}

pub proof fn lemma_raw_add_assoc(a: FracValue, b: FracValue, c: FracValue)
    ensures
        raw_add(raw_add(a, b), c) == raw_add(a, raw_add(b, c)),
{
    let (an, ad, bn, bd, cn, cd) = (a.num, a.den, b.num, b.den, c.num, c.den);
    vstd::arithmetic::mul::lemma_mul_is_distributive_add_other_way(cd, an * bd, bn * ad);
    vstd::arithmetic::mul::lemma_mul_is_distributive_add_other_way(ad, bn * cd, cn * bd);
    vstd::arithmetic::mul::lemma_mul_is_associative(an, bd, cd);
    vstd::arithmetic::mul::lemma_mul_is_associative(bn, ad, cd);
    vstd::arithmetic::mul::lemma_mul_is_associative(bn, cd, ad);
    vstd::arithmetic::mul::lemma_mul_is_commutative(ad, cd);
    vstd::arithmetic::mul::lemma_mul_is_associative(cn, ad, bd);
    vstd::arithmetic::mul::lemma_mul_is_associative(cn, bd, ad);
    vstd::arithmetic::mul::lemma_mul_is_commutative(ad, bd);
    vstd::arithmetic::mul::lemma_mul_is_associative(ad, bd, cd);
    assert((an * bd + bn * ad) * cd + cn * (ad * bd) == an * (bd * cd) + (bn * cd + cn * bd) * ad);
}

/// The coefficients of a concatenation are the sums of the coefficients.
pub proof fn lemma_coefficient_concat(a: Seq<LogTerm>, b: Seq<LogTerm>, q: nat)
    ensures
        coefficient(a + b, q) == raw_add(coefficient(a, q), coefficient(b, q)),
    decreases b.len(),
{
    if b.len() == 0 {
        assert(a + b =~= a);
        let c = coefficient(a, q);
        assert(coefficient(b, q) == frac_zero());
        assert(c.num * 1 + 0 * c.den == c.num);
        assert(c.den * 1 == c.den);
        assert(raw_add(c, frac_zero()) == c);
    } else {
        assert((a + b).drop_last() =~= a + b.drop_last());
        assert((a + b).last() == b.last());
        lemma_coefficient_concat(a, b.drop_last(), q);
        lemma_raw_add_assoc(coefficient(a, q), coefficient(b.drop_last(), q), term_coefficient(b.last(), q));
    }
}

/// Negating the weights negates every coefficient.
pub proof fn lemma_coefficient_negate(ts: Seq<LogTerm>, q: nat)
    ensures
        coefficient(negate_terms(ts), q) == (FracValue {
            num: -coefficient(ts, q).num,
            den: coefficient(ts, q).den,
        }),
    decreases ts.len(),
{
    if ts.len() > 0 {
        assert(negate_terms(ts).drop_last() =~= negate_terms(ts.drop_last()));
        lemma_coefficient_negate(ts.drop_last(), q);
        let c = coefficient(ts.drop_last(), q);
        let t = ts.last();
        let e = valuation(q, abs_int(t.argument.num)) - valuation(q, abs_int(t.argument.den));
        assert((-t.weight.num) * e == -(t.weight.num * e)) by (nonlinear_arith);
        let tc = term_coefficient(t, q);
        assert((-c.num) * tc.den + (-tc.num) * c.den == -(c.num * tc.den + tc.num * c.den)) by (nonlinear_arith);
    }
}

/// A sum of terms minus itself is zero.
pub proof fn lemma_sum_minus_itself(ts: Seq<LogTerm>)
    ensures
        sums_to_zero(ts + negate_terms(ts)),
{
    assert forall|q: nat| is_prime(q) implies (#[trigger] coefficient(ts + negate_terms(ts), q)).num == 0 by {
        lemma_coefficient_concat(ts, negate_terms(ts), q);
        lemma_coefficient_negate(ts, q);
        let c = coefficient(ts, q);
        assert(c.num * c.den + (-c.num) * c.den == 0) by (nonlinear_arith);
    }
}

/// Every sum of terms equals itself.
pub proof fn lemma_same_sum_reflexive(ts: Seq<LogTerm>)
    ensures
        same_sum(ts, ts),
{
}

/// The quotient `numerator / denominator` of two entropy values.
pub struct LogRatio {
    pub numerator: LogDiv,
    pub denominator: LogDiv,
}

impl LogRatio {
    /// Whether the quotient is one: numerator and denominator are the same
    /// non-zero value, or both are zero.
    pub fn is_one(&self) -> (r: bool)
        ensures
            r == same_sum(self.numerator@, self.denominator@),
    {
        self.numerator.equals(&self.denominator)
    }
}

/// An exact sum of weighted base-2 logarithms.
pub struct LogDiv {
    poly: LogPolynomialExact,
    model: Ghost<Seq<LogTerm>>,
}

impl View for LogDiv {
    type V = Seq<LogTerm>;

    closed spec fn view(&self) -> Seq<LogTerm> {
        self.model@
    }
}

impl LogDiv {
    /// `LogPolynomialExact::zero()`: the empty sum.
    #[verifier::external_body]
    pub fn zero() -> (r: LogDiv)
        ensures
            r@ == Seq::<LogTerm>::empty(),
    {
        LogDiv { poly: EbiZero::zero(), model: Ghost(Seq::empty()) }
    }

    /// `LogPolynomialExact::n_log_n_of(x)`: the single term `x * log2(x)`.
    /// It fails (here: `None`) exactly when `x` is not positive or when its
    /// numerator or denominator does not fit in a `u128`.
    #[verifier::external_body]
    pub fn n_log_n(x: &Fraction) -> (r: Option<LogDiv>)
        ensures
            r is Some <==> n_log_n_defined(x@),
            r matches Some(v) ==> v@ == seq![LogTerm { weight: x@, argument: x@ }],
    {
        match LogPolynomialExact::n_log_n_of(&x.to_exact()) {
            Ok(poly) => Some(LogDiv { poly, model: Ghost(seq![LogTerm { weight: x@, argument: x@ }]) }),
            Err(_) => None,
        }
    }

    /// `LogPolynomialExact += &LogPolynomialExact`.
    #[verifier::external_body]
    pub fn add(&self, other: &LogDiv) -> (r: LogDiv)
        ensures
            r@ == self@ + other@,
    {
        let mut poly = self.poly.clone();
        poly += &other.poly;
        LogDiv { poly, model: Ghost(self@ + other@) }
    }

    /// `LogPolynomialExact -= &LogPolynomialExact`.
    #[verifier::external_body]
    pub fn sub(&self, other: &LogDiv) -> (r: LogDiv)
        ensures
            r@ == self@ + negate_terms(other@),
    {
        let mut poly = self.poly.clone();
        poly -= &other.poly;
        LogDiv { poly, model: Ghost(self@ + negate_terms(other@)) }
    }

    /// `LogPolynomialExact *= &FractionExact`: every weight multiplied by `c`.
    #[verifier::external_body]
    pub fn scale(&self, c: &Fraction) -> (r: LogDiv)
        ensures
            r@ == scale_terms(self@, c@),
    {
        let mut poly = self.poly.clone();
        poly *= &c.to_exact();
        LogDiv { poly, model: Ghost(scale_terms(self@, c@)) }
    }

    /// `LogPolynomialExact::clone`.
    #[verifier::external_body]
    pub fn copy(&self) -> (r: LogDiv)
        ensures
            r@ == self@,
    {
        LogDiv { poly: self.poly.clone(), model: Ghost(self@) }
    }

    /// `LogPolynomialExact::is_zero`: the polynomial keeps no zero
    /// coefficient, so it is empty exactly when every prime's coefficient is zero.
    #[verifier::external_body]
    pub fn is_zero(&self) -> (r: bool)
        ensures
            r == sums_to_zero(self@),
    {
        EbiZero::is_zero(&self.poly)
    }

    /// `LogPolynomialExact == LogPolynomialExact`: both keep exactly the
    /// primes with a non-zero coefficient, so they are equal exactly when
    /// every prime has the same coefficient in both.
    #[verifier::external_body]
    pub fn equals(&self, other: &LogDiv) -> (r: bool)
        ensures
            r == same_sum(self@, other@),
    {
        self.poly == other.poly
    }

    /// Compares the floating-point approximations (`Approximate::approximate`)
    /// of the two values: true when this one is strictly smaller. The
    /// approximation sums over a hash map, so nothing is stated of the outcome.
    #[verifier::external_body]
    pub fn approximately_below(&self, other: &LogDiv) -> bool {
        self.poly.clone().approximate().ok() < other.poly.clone().approximate().ok()
    }

    /// Division of entropy values: the exact quotient `self / rhs`, kept as
    /// its numerator and denominator (a quotient of logarithms is in general
    /// not itself a sum of logarithms).
    pub fn div(self, rhs: LogDiv) -> (r: LogRatio)
        ensures
            r.numerator@ == self@,
            r.denominator@ == rhs@,
    {
        LogRatio { numerator: self, denominator: rhs }
    }

    /// The `ebi_arithmetic` log-polynomial that holds this value.
    pub closed spec fn log_polynomial(&self) -> LogPolynomialExact {
        self.poly
    }

    /// The underlying `ebi_arithmetic` log-polynomial.
    pub fn polynomial(&self) -> (r: &LogPolynomialExact)
        ensures
            *r == self.log_polynomial(),
    {
        &self.poly
    }
}

} // verus!
