//! Divisibility facts behind exact logarithms: Bezout's identity, Euclid's
//! lemma, and that the exponent of a prime in a product is the sum of its
//! exponents in the factors.

use vstd::prelude::*;
use vstd::arithmetic::div_mod::{lemma_div_multiples_vanish, lemma_fundamental_div_mod, lemma_mod_multiples_basic};
use crate::fraction::{gcd, lemma_gcd_divides};
use crate::logdiv::{is_prime, valuation};

verus! {

/// Bezout's identity: `a * x + b * y == gcd(a, b)` for some integers `x`, `y`.
pub proof fn lemma_bezout(a: nat, b: nat) -> (xy: (int, int))
    ensures
        a * xy.0 + b * xy.1 == gcd(a, b),
    decreases b,
{
    if b == 0 {
        (1, 0)
    } else {
        let r = a % b;
        let (x, y) = lemma_bezout(b, r);
        lemma_fundamental_div_mod(a as int, b as int);
        let q = a as int / b as int;
        assert(a * y + b * (x - q * y) == b * x + r * y) by (nonlinear_arith)
            requires
                a == b * q + r,
        ;
        (y, x - q * y)
    }
}

/// Euclid's lemma: a prime that divides a product divides one of the factors.
pub proof fn lemma_euclid(q: nat, a: nat, b: nat)
    requires
        is_prime(q),
        (a * b) % q == 0,
    ensures
        a % q == 0 || b % q == 0,
{
    if a % q != 0 {
        let g = gcd(a, q);
        lemma_gcd_divides(a, q);
        lemma_fundamental_div_mod(q as int, g as int);
        lemma_fundamental_div_mod(a as int, g as int);
        let k = q as int / g as int;
        assert(g <= q) by (nonlinear_arith)
            requires
                q == g * k + 0,
                q > 0,
                g > 0,
        ;
        if g != 1 {
            if g < q {
                assert(q % g != 0);
            } else {
                assert(g == q);
            }
        }
        assert(g == 1);
        let (x, y) = lemma_bezout(a, q);
        lemma_fundamental_div_mod((a * b) as int, q as int);
        let m = (a * b) as int / q as int;
        assert(b == q * (m * x + b * y)) by (nonlinear_arith)
            requires
                a * x + q * y == 1,
                a * b == q * m + 0,
        ;
        lemma_mod_multiples_basic(m * x + b * y, q as int);
        assert((m * x + b * y) * q == q * (m * x + b * y)) by (nonlinear_arith);
    }
}

/// The exponent of a prime in a product is the sum of its exponents in the factors.
pub proof fn lemma_valuation_mul(q: nat, a: nat, b: nat)
    requires
        is_prime(q),
        a > 0,
        b > 0,
    ensures
        valuation(q, a * b) == valuation(q, a) + valuation(q, b),
    decreases a + b,
{
    assert(a * b > 0) by (nonlinear_arith)
        requires
            a > 0,
            b > 0,
    ;
    if a % q == 0 {
        lemma_fundamental_div_mod(a as int, q as int);
        let a1 = a / q;
        assert(a1 > 0 && a1 < a) by (nonlinear_arith)
            requires
                a == q * a1 + 0,
                a > 0,
                q > 1,
        ;
        assert(a * b == q * (a1 * b)) by (nonlinear_arith)
            requires
                a == q * a1 + 0,
        ;
        lemma_mod_multiples_basic((a1 * b) as int, q as int);
        assert((a1 * b) * q == q * (a1 * b)) by (nonlinear_arith);
        lemma_div_multiples_vanish((a1 * b) as int, q as int);
        assert((a * b) / q == a1 * b);
        lemma_valuation_mul(q, a1, b);
    } else if b % q == 0 {
        lemma_fundamental_div_mod(b as int, q as int);
        let b1 = b / q;
        assert(b1 > 0 && b1 < b) by (nonlinear_arith)
            requires
                b == q * b1 + 0,
                b > 0,
                q > 1,
        ;
        assert(a * b == q * (a * b1)) by (nonlinear_arith)
            requires
                b == q * b1 + 0,
        ;
        lemma_mod_multiples_basic((a * b1) as int, q as int);
        assert((a * b1) * q == q * (a * b1)) by (nonlinear_arith);
        lemma_div_multiples_vanish((a * b1) as int, q as int);
        assert((a * b) / q == a * b1);
        lemma_valuation_mul(q, a, b1);
    } else {
        if (a * b) % q == 0 {
            lemma_euclid(q, a, b);
        }
    }
}

/// Dividing out a divisor `g` of `n` takes its exponent away.
pub proof fn lemma_valuation_div(q: nat, n: nat, g: nat)
    requires
        is_prime(q),
        n > 0,
        g > 0,
        n % g == 0,
    ensures
        n / g > 0,
        valuation(q, n) == valuation(q, g) + valuation(q, n / g),
{
    lemma_fundamental_div_mod(n as int, g as int);
    let m = n / g;
    assert(m > 0) by (nonlinear_arith)
        requires
            n == g * m + 0,
            n > 0,
            g > 0,
    ;
    lemma_valuation_mul(q, g, m);
}

} // verus!
