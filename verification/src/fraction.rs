//! Exact fractions. A `Fraction` holds its numerator and denominator as
//! little-endian 64-bit limbs, in lowest terms with a positive denominator,
//! exactly as `ebi_arithmetic`'s exact fractions store them; every operation
//! is delegated to `ebi_arithmetic`.

use vstd::prelude::*;
use ebi_arithmetic::fraction::fraction_exact::FractionExact;
use ebi_arithmetic::malachite::Natural;
use ebi_arithmetic::malachite::rational::Rational;
use ebi_arithmetic::MaybeExact;
use ebi_arithmetic::Zero as EbiZero;
use ebi_arithmetic::One as EbiOne;
use ebi_arithmetic::Signed as EbiSigned;

verus! {

#[verifier::external_type_specification]
#[verifier::external_body]
pub struct ExFractionExact(FractionExact);

/// The mathematical value of a fraction: `num / den`.
pub struct FracValue {
    pub num: int,
    pub den: int,
}

/// Value of little-endian base-2^64 limbs.
pub open spec fn limbs_value(limbs: Seq<u64>) -> nat
    decreases limbs.len(),
{
    if limbs.len() == 0 {
        0
    } else {
        (limbs[0] + 0x1_0000_0000_0000_0000 * limbs_value(limbs.skip(1))) as nat
    }
}

pub open spec fn abs_int(x: int) -> nat {
    if x < 0 {
        (-x) as nat
    } else {
        x as nat
    }
}

/// Greatest common divisor (Euclid).
pub open spec fn gcd(a: nat, b: nat) -> nat
    decreases b,
{
    if b == 0 {
        a
    } else {
        gcd(b, a % b)
    }
}

/// The fraction `n / d` in lowest terms with a positive denominator.
pub open spec fn normalize(n: int, d: int) -> FracValue {
    let g = gcd(abs_int(n), abs_int(d)) as int;
    if d < 0 {
        FracValue { num: (-n) / g, den: (-d) / g }
    } else {
        FracValue { num: n / g, den: d / g }
    }
}

/// Exact sum, in lowest terms.
pub open spec fn frac_add(a: FracValue, b: FracValue) -> FracValue {
    normalize(a.num * b.den + b.num * a.den, a.den * b.den)
}

/// Exact difference, in lowest terms.
pub open spec fn frac_sub(a: FracValue, b: FracValue) -> FracValue {
    normalize(a.num * b.den - b.num * a.den, a.den * b.den)
}

/// Exact product, in lowest terms.
pub open spec fn frac_mul(a: FracValue, b: FracValue) -> FracValue {
    normalize(a.num * b.num, a.den * b.den)
}

pub open spec fn frac_zero() -> FracValue {
    FracValue { num: 0, den: 1 }
}

pub open spec fn frac_one() -> FracValue {
    FracValue { num: 1, den: 1 }
}

pub proof fn lemma_normalize_constants()
    ensures
        normalize(0, 1) == frac_zero(),
        normalize(1, 1) == frac_one(),
{
    reveal_with_fuel(gcd, 2);
    assert(gcd(0, 1) == 1);
    assert(gcd(1, 1) == 1);
    assert(0int / 1int == 0);
    assert(1int / 1int == 1);
}

/// `gcd(a, b)` is positive and divides both `a` and `b`.
pub proof fn lemma_gcd_divides(a: nat, b: nat)
    requires
        a > 0 || b > 0,
    ensures
        gcd(a, b) > 0,
        a % gcd(a, b) == 0,
        b % gcd(a, b) == 0,
    decreases b,
{
    if b == 0 {
        vstd::arithmetic::div_mod::lemma_mod_self_0(a as int);
        vstd::arithmetic::div_mod::lemma_small_mod(0, a);
    } else {
        let r = a % b;
        lemma_gcd_divides(b, r);
        let g = gcd(b, r);
        assert(gcd(a, b) == g);
        vstd::arithmetic::div_mod::lemma_fundamental_div_mod(a as int, b as int);
        vstd::arithmetic::div_mod::lemma_fundamental_div_mod(b as int, g as int);
        vstd::arithmetic::div_mod::lemma_fundamental_div_mod(r as int, g as int);
        let k1 = b as int / g as int;
        let k2 = r as int / g as int;
        let q = a as int / b as int;
        assert(a == g * (k1 * q + k2)) by (nonlinear_arith)
            requires
                a == b * q + r,
                b == g * k1 + 0,
                r == g * k2 + 0,
        ;
        vstd::arithmetic::div_mod::lemma_mod_multiples_basic(k1 * q + k2, g as int);
        assert((g * (k1 * q + k2)) == ((k1 * q + k2) * g)) by (nonlinear_arith);
    }
}

/// A normalized fraction of a non-zero denominator has a positive denominator.
pub proof fn lemma_normalize_den_pos(n: int, d: int)
    requires
        d != 0,
    ensures
        normalize(n, d).den > 0,
{
    let g = gcd(abs_int(n), abs_int(d));
    lemma_gcd_divides(abs_int(n), abs_int(d));
    let ad = abs_int(d) as int;
    vstd::arithmetic::div_mod::lemma_fundamental_div_mod(ad, g as int);
    assert(ad / (g as int) > 0) by (nonlinear_arith)
        requires
            ad > 0,
            g > 0,
            ad == g * (ad / (g as int)) + 0,
    ;
}

/// A fraction in lowest terms is its own normal form.
pub proof fn lemma_normalize_reduced(x: FracValue)
    requires
        is_reduced(x),
    ensures
        normalize(x.num, x.den) == x,
{
    vstd::arithmetic::div_mod::lemma_div_basics(x.num);
    vstd::arithmetic::div_mod::lemma_div_basics(x.den);
}

/// Zero over a positive denominator normalizes to `0/1`.
pub proof fn lemma_normalize_zero(d: int)
    requires
        d > 0,
    ensures
        normalize(0, d) == frac_zero(),
{
    reveal_with_fuel(gcd, 2);
    vstd::arithmetic::div_mod::lemma_mod_self_0(d);
    vstd::arithmetic::div_mod::lemma_div_basics(d);
    assert(gcd(0, d as nat) == d);
}

/// An exact fraction.
#[derive(Debug)]
pub struct Fraction {
    negative: bool,
    numerator: Vec<u64>,
    denominator: Vec<u64>,
}

impl View for Fraction {
    type V = FracValue;

    closed spec fn view(&self) -> FracValue {
        let n = limbs_value(self.numerator@) as int;
        FracValue {
            num: if self.negative { -n } else { n },
            den: limbs_value(self.denominator@) as int,
        }
    }
}

/// Lowest terms with a positive denominator.
pub open spec fn is_reduced(x: FracValue) -> bool {
    x.den > 0 && gcd(abs_int(x.num), x.den as nat) == 1
}

impl Fraction {
    /// Every fraction is kept in lowest terms with a positive denominator,
    /// as `ebi_arithmetic`'s exact fractions are.
    #[verifier::type_invariant]
    spec fn reduced(self) -> bool {
        is_reduced(self@)
    }

    /// States the invariant of this fraction (no run-time effect).
    pub(crate) fn assert_reduced(&self)
        ensures
            is_reduced(self@),
    {
        proof {
            use_type_invariant(self);
        }
    }

    /// Converts to the exact fraction type of `ebi_arithmetic`.
    #[verifier::external_body]
    pub(crate) fn to_exact(&self) -> FractionExact {
        FractionExact::from(Rational::from_sign_and_naturals(
            !self.negative,
            Natural::from_limbs_asc(&self.numerator),
            Natural::from_limbs_asc(&self.denominator),
        ))
    }

    /// Converts from the exact fraction type of `ebi_arithmetic`.
    #[verifier::external_body]
    pub(crate) fn from_exact(value: FractionExact) -> Fraction {
        let r: Rational = value.exact().unwrap_or_default();
        Fraction {
            negative: r < 0u32,
            numerator: r.numerator_ref().to_limbs_asc(),
            denominator: r.denominator_ref().to_limbs_asc(),
        }
    }

    /// The fraction `numerator / denominator`, built with `FractionExact::from((n, d))`.
    #[verifier::external_body]
    pub fn new(numerator: u64, denominator: u64) -> (r: Fraction)
        requires
            denominator > 0,
        ensures
            r@ == normalize(numerator as int, denominator as int),
    {
        Self::from_exact(FractionExact::from((numerator, denominator)))
    }

    /// The fraction with the given sign and limbs (little-endian, base 2^64),
    /// reduced to lowest terms by `Rational::from_sign_and_naturals`.
    #[verifier::external_body]
    pub fn from_limbs(negative: bool, numerator: Vec<u64>, denominator: Vec<u64>) -> (r: Fraction)
        requires
            limbs_value(denominator@) > 0,
        ensures
            r@ == normalize(
                if negative { -(limbs_value(numerator@) as int) } else { limbs_value(numerator@) as int },
                limbs_value(denominator@) as int,
            ),
    {
        Self::from_exact(FractionExact::from(Rational::from_sign_and_naturals(
            !negative,
            Natural::from_limbs_asc(&numerator),
            Natural::from_limbs_asc(&denominator),
        )))
    }

    pub fn zero() -> (r: Fraction)
        ensures
            r@ == frac_zero(),
    {
        proof {
            lemma_normalize_constants();
        }
        Fraction::new(0, 1)
    }

    pub fn one() -> (r: Fraction)
        ensures
            r@ == frac_one(),
    {
        proof {
            lemma_normalize_constants();
        }
        Fraction::new(1, 1)
    }

    pub fn numerator_limbs(&self) -> (r: &Vec<u64>)
        ensures
            limbs_value(r@) == abs_int(self@.num),
    {
        &self.numerator
    }

    pub fn denominator_limbs(&self) -> (r: &Vec<u64>)
        ensures
            limbs_value(r@) == self@.den,
    {
        &self.denominator
    }

    /// A copy of this fraction.
    pub fn copy(&self) -> (r: Fraction)
        ensures
            r@ == self@,
    {
        proof {
            use_type_invariant(self);
        }
        Fraction {
            negative: self.negative,
            numerator: self.numerator.clone(),
            denominator: self.denominator.clone(),
        }
    }

    /// Exact sum (`FractionExact + FractionExact`).
    #[verifier::external_body]
    pub fn add(&self, other: &Fraction) -> (r: Fraction)
        ensures
            r@ == frac_add(self@, other@),
    {
        Self::from_exact(self.to_exact() + other.to_exact())
    }

    /// Exact difference (`FractionExact - FractionExact`).
    #[verifier::external_body]
    pub fn sub(&self, other: &Fraction) -> (r: Fraction)
        ensures
            r@ == frac_sub(self@, other@),
    {
        Self::from_exact(self.to_exact() - other.to_exact())
    }

    /// Exact product (`FractionExact * FractionExact`).
    #[verifier::external_body]
    pub fn mul(&self, other: &Fraction) -> (r: Fraction)
        ensures
            r@ == frac_mul(self@, other@),
    {
        Self::from_exact(self.to_exact() * other.to_exact())
    }

    /// `FractionExact::is_zero`.
    #[verifier::external_body]
    pub fn is_zero(&self) -> (r: bool)
        ensures
            r == (self@.num == 0),
    {
        EbiZero::is_zero(&self.to_exact())
    }

    /// `FractionExact::is_one`.
    #[verifier::external_body]
    pub fn is_one(&self) -> (r: bool)
        ensures
            r == (self@.num == self@.den),
    {
        EbiOne::is_one(&self.to_exact())
    }

    /// `FractionExact::is_negative`.
    #[verifier::external_body]
    pub fn is_negative(&self) -> (r: bool)
        ensures
            r == (self@.num < 0),
    {
        EbiSigned::is_negative(&self.to_exact())
    }
}

} // verus!
