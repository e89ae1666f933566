//! Equality of fractions by value (cross-multiplication), the laws of their
//! unreduced sums and products, and the exponent of a prime in a fraction.

use vstd::prelude::*;
use crate::fraction::{FracValue, abs_int, frac_mul, frac_zero, gcd, lemma_gcd_divides, normalize};
use crate::logdiv::{is_prime, lemma_raw_add_assoc, raw_add, valuation};
use crate::primes::{lemma_valuation_div, lemma_valuation_mul};

verus! {

/// `a` and `b` stand for the same rational number.
pub open spec fn same_value(a: FracValue, b: FracValue) -> bool {
    a.num * b.den == b.num * a.den
}

/// Product of two fractions, not reduced.
pub open spec fn raw_mul(a: FracValue, b: FracValue) -> FracValue {
    FracValue { num: a.num * b.num, den: a.den * b.den }
}

/// Exponent of the prime `q` in the fraction `a`: in its numerator, less in
/// its denominator.
pub open spec fn exponent(a: FracValue, q: nat) -> int {
    valuation(q, abs_int(a.num)) - valuation(q, abs_int(a.den))
}

pub proof fn lemma_same_value_trans(x: FracValue, y: FracValue, z: FracValue)
    requires
        same_value(x, y),
        same_value(y, z),
        y.den > 0,
    ensures
        same_value(x, z),
{
    assert(x.num * z.den * y.den == z.num * x.den * y.den) by (nonlinear_arith)
        requires
            x.num * y.den == y.num * x.den,
            y.num * z.den == z.num * y.den,
    ;
    assert(x.num * z.den == z.num * x.den) by (nonlinear_arith)
        requires
            x.num * z.den * y.den == z.num * x.den * y.den,
            y.den > 0,
    ;
}

proof fn lemma_expand_sum_product(p: int, q: int, r: int, s: int, t: int, w: int)
    ensures
        (p * q + r * s) * (t * w) == (p * t) * (q * w) + (r * w) * (s * t),
{
    vstd::arithmetic::mul::lemma_mul_is_distributive_add_other_way(t * w, p * q, r * s);
    lemma_swap_product(p, q, t, w);
    lemma_swap_product_other(r, s, t, w);
}

proof fn lemma_swap_product(p: int, q: int, t: int, w: int)
    by (nonlinear_arith)
    ensures
        (p * q) * (t * w) == (p * t) * (q * w),
{
}

proof fn lemma_swap_product_other(r: int, s: int, t: int, w: int)
    by (nonlinear_arith)
    ensures
        (r * s) * (t * w) == (r * w) * (s * t),
{
}

pub proof fn lemma_add_congruent(a: FracValue, a2: FracValue, b: FracValue, b2: FracValue)
    requires
        same_value(a, a2),
        same_value(b, b2),
    ensures
        same_value(raw_add(a, b), raw_add(a2, b2)),
{
    let (an, ad, bn, bd) = (a.num, a.den, b.num, b.den);
    let (a2n, a2d, b2n, b2d) = (a2.num, a2.den, b2.num, b2.den);
    lemma_expand_sum_product(an, bd, bn, ad, a2d, b2d);
    lemma_expand_sum_product(a2n, b2d, b2n, a2d, ad, bd);
    vstd::arithmetic::mul::lemma_mul_is_commutative(b2d, bd);
    vstd::arithmetic::mul::lemma_mul_is_commutative(a2d, ad);
    vstd::arithmetic::mul::lemma_mul_is_commutative(an, a2d);
    vstd::arithmetic::mul::lemma_mul_is_commutative(a2n, ad);
    vstd::arithmetic::mul::lemma_mul_is_commutative(bn, b2d);
    vstd::arithmetic::mul::lemma_mul_is_commutative(b2n, bd);
}

pub proof fn lemma_mul_congruent(a: FracValue, a2: FracValue, b: FracValue, b2: FracValue)
    requires
        same_value(a, a2),
        same_value(b, b2),
    ensures
        same_value(raw_mul(a, b), raw_mul(a2, b2)),
{
    assert((a.num * b.num) * (a2.den * b2.den) == (a2.num * b2.num) * (a.den * b.den)) by (nonlinear_arith)
        requires
            a.num * a2.den == a2.num * a.den,
            b.num * b2.den == b2.num * b.den,
    ;
}

pub proof fn lemma_add_commutes(a: FracValue, b: FracValue)
    ensures
        same_value(raw_add(a, b), raw_add(b, a)),
{
    assert((a.num * b.den + b.num * a.den) * (b.den * a.den) == (b.num * a.den + a.num * b.den) * (a.den
        * b.den)) by (nonlinear_arith);
}

proof fn lemma_rearrange_product(w: int, x: int, y: int, z: int)
    by (nonlinear_arith)
    ensures
        (w * x) * (y * z) == y * (w * (x * z)),
{
}

proof fn lemma_factor_sum(an: int, ad: int, bn: int, bd: int, cn: int, cd: int)
    ensures
        (cn * an) * (cd * bd) + (cn * bn) * (cd * ad) == cd * (cn * (an * bd + bn * ad)),
{
    lemma_rearrange_product(cn, an, cd, bd);
    lemma_rearrange_product(cn, bn, cd, ad);
    vstd::arithmetic::mul::lemma_mul_is_distributive_add(cn, an * bd, bn * ad);
    vstd::arithmetic::mul::lemma_mul_is_distributive_add(cd, cn * (an * bd), cn * (bn * ad));
}

proof fn lemma_factor_product(ad: int, bd: int, cd: int)
    by (nonlinear_arith)
    ensures
        (cd * ad) * (cd * bd) == cd * (cd * (ad * bd)),
{
}

proof fn lemma_move_factor(x: int, c: int, m: int)
    by (nonlinear_arith)
    ensures
        x * (c * m) == (c * x) * m,
{
}

pub proof fn lemma_mul_commutes(a: FracValue, b: FracValue)
    ensures
        same_value(raw_mul(a, b), raw_mul(b, a)),
{
    vstd::arithmetic::mul::lemma_mul_is_commutative(a.num, b.num);
    vstd::arithmetic::mul::lemma_mul_is_commutative(a.den, b.den);
}

pub proof fn lemma_mul_associates(a: FracValue, b: FracValue, c: FracValue)
    ensures
        same_value(raw_mul(raw_mul(a, b), c), raw_mul(a, raw_mul(b, c))),
{
    vstd::arithmetic::mul::lemma_mul_is_associative(a.num, b.num, c.num);
    vstd::arithmetic::mul::lemma_mul_is_associative(a.den, b.den, c.den);
}

pub proof fn lemma_mul_distributes(c: FracValue, a: FracValue, b: FracValue)
    ensures
        same_value(raw_mul(c, raw_add(a, b)), raw_add(raw_mul(c, a), raw_mul(c, b))),
{
    let (an, ad, bn, bd, cn, cd) = (a.num, a.den, b.num, b.den, c.num, c.den);
    lemma_factor_sum(an, ad, bn, bd, cn, cd);
    lemma_factor_product(ad, bd, cd);
    lemma_move_factor(cn * (an * bd + bn * ad), cd, cd * (ad * bd));
}

pub proof fn lemma_positive_denominators(a: FracValue, b: FracValue)
    requires
        a.den > 0,
        b.den > 0,
    ensures
        raw_add(a, b).den > 0,
        raw_mul(a, b).den > 0,
{
    assert(a.den * b.den > 0) by (nonlinear_arith)
        requires
            a.den > 0,
            b.den > 0,
    ;
}

/// A fraction has the value of its normal form.
pub proof fn lemma_normalize_same_value(n: int, d: int)
    requires
        d > 0,
    ensures
        same_value(normalize(n, d), FracValue { num: n, den: d }),
        normalize(n, d).den > 0,
{
    let g = gcd(abs_int(n), abs_int(d)) as int;
    lemma_gcd_divides(abs_int(n), abs_int(d));
    vstd::arithmetic::div_mod::lemma_fundamental_div_mod(n, g);
    vstd::arithmetic::div_mod::lemma_fundamental_div_mod(d, g);
    assert(n % g == 0) by {
        if n < 0 {
            vstd::arithmetic::div_mod::lemma_fundamental_div_mod(-n, g);
            let k = (-n) / g;
            assert(n == g * (-k) + 0) by (nonlinear_arith)
                requires
                    -n == g * k + 0,
            ;
            vstd::arithmetic::div_mod::lemma_mod_multiples_basic(-k, g);
            assert((-k) * g == g * (-k)) by (nonlinear_arith);
        }
    }
    let (nn, dd) = (n / g, d / g);
    assert(nn * d == n * dd) by (nonlinear_arith)
        requires
            n == g * nn + 0,
            d == g * dd + 0,
    ;
    crate::fraction::lemma_normalize_den_pos(n, d);
}

/// The exponent of a prime in the normal form of `n / d` is its exponent in
/// `n` less its exponent in `d`.
pub proof fn lemma_exponent_normalize(q: nat, n: int, d: int)
    requires
        is_prime(q),
        n > 0,
        d > 0,
    ensures
        normalize(n, d).num > 0,
        normalize(n, d).den > 0,
        exponent(normalize(n, d), q) == valuation(q, n as nat) - valuation(q, d as nat),
{
    let g = gcd(n as nat, d as nat);
    lemma_gcd_divides(n as nat, d as nat);
    lemma_valuation_div(q, n as nat, g);
    lemma_valuation_div(q, d as nat, g);
    assert((n as nat) / g == n / (g as int));
    assert((d as nat) / g == d / (g as int));
}

/// The exponent of a prime in a product of positive fractions is the sum of
/// its exponents in the factors.
pub proof fn lemma_exponent_mul(q: nat, a: FracValue, b: FracValue)
    requires
        is_prime(q),
        a.num > 0,
        a.den > 0,
        b.num > 0,
        b.den > 0,
    ensures
        frac_mul(a, b).num > 0,
        frac_mul(a, b).den > 0,
        exponent(frac_mul(a, b), q) == exponent(a, q) + exponent(b, q),
{
    assert(a.num * b.num > 0 && a.den * b.den > 0) by (nonlinear_arith)
        requires
            a.num > 0,
            a.den > 0,
            b.num > 0,
            b.den > 0,
    ;
    lemma_exponent_normalize(q, a.num * b.num, a.den * b.den);
    lemma_valuation_mul(q, a.num as nat, b.num as nat);
    lemma_valuation_mul(q, a.den as nat, b.den as nat);
}

/// `f(0) + ... + f(k - 1)`, not reduced.
pub open spec fn raw_sum(f: spec_fn(int) -> FracValue, k: int) -> FracValue
    decreases k,
{
    if k <= 0 {
        frac_zero()
    } else {
        raw_add(raw_sum(f, k - 1), f(k - 1))
    }
}

/// Sums of termwise equal values are equal.
pub proof fn lemma_sum_congruent(f: spec_fn(int) -> FracValue, g: spec_fn(int) -> FracValue, k: int)
    requires
        forall|i: int| 0 <= i < k ==> same_value(#[trigger] f(i), g(i)),
        forall|i: int| 0 <= i < k ==> (#[trigger] f(i)).den > 0 && g(i).den > 0,
    ensures
        same_value(raw_sum(f, k), raw_sum(g, k)),
        raw_sum(f, k).den > 0,
        raw_sum(g, k).den > 0,
    decreases k,
{
    if k > 0 {
        lemma_sum_congruent(f, g, k - 1);
        lemma_add_congruent(raw_sum(f, k - 1), raw_sum(g, k - 1), f(k - 1), g(k - 1));
        lemma_positive_denominators(raw_sum(f, k - 1), f(k - 1));
        lemma_positive_denominators(raw_sum(g, k - 1), g(k - 1));
    }
}

/// `(a + b) + (c + d)` has the value of `(a + c) + (b + d)`.
pub proof fn lemma_add_swap_middle(a: FracValue, b: FracValue, c: FracValue, d: FracValue)
    requires
        a.den > 0,
        b.den > 0,
        c.den > 0,
        d.den > 0,
    ensures
        same_value(raw_add(raw_add(a, b), raw_add(c, d)), raw_add(raw_add(a, c), raw_add(b, d))),
{
    lemma_positive_denominators(b, c);
    lemma_positive_denominators(c, b);
    lemma_positive_denominators(raw_add(b, c), d);
    lemma_positive_denominators(raw_add(c, b), d);
    lemma_positive_denominators(c, d);
    lemma_positive_denominators(b, d);
    lemma_positive_denominators(a, raw_add(raw_add(b, c), d));
    lemma_raw_add_assoc(a, b, raw_add(c, d));
    lemma_raw_add_assoc(b, c, d);
    lemma_add_commutes(b, c);
    lemma_add_congruent(raw_add(b, c), raw_add(c, b), d, d);
    lemma_raw_add_assoc(c, b, d);
    lemma_add_congruent(a, a, raw_add(raw_add(b, c), d), raw_add(c, raw_add(b, d)));
    lemma_raw_add_assoc(a, c, raw_add(b, d));
}

/// The sum of termwise sums is the sum of the two sums.
pub proof fn lemma_sum_add(f: spec_fn(int) -> FracValue, g: spec_fn(int) -> FracValue, k: int)
    requires
        forall|i: int| 0 <= i < k ==> (#[trigger] f(i)).den > 0 && g(i).den > 0,
    ensures
        same_value(raw_sum(|i: int| raw_add(f(i), g(i)), k), raw_add(raw_sum(f, k), raw_sum(g, k))),
        raw_sum(|i: int| raw_add(f(i), g(i)), k).den > 0,
        raw_sum(f, k).den > 0,
        raw_sum(g, k).den > 0,
    decreases k,
{
    let h = |i: int| raw_add(f(i), g(i));
    if k <= 0 {
        assert(0 * (1 * 1) == 0 * 1 + 0 * 1);
    } else {
        lemma_sum_add(f, g, k - 1);
        let (sh, sf, sg) = (raw_sum(h, k - 1), raw_sum(f, k - 1), raw_sum(g, k - 1));
        lemma_positive_denominators(f(k - 1), g(k - 1));
        lemma_positive_denominators(sf, sg);
        lemma_positive_denominators(sh, h(k - 1));
        lemma_positive_denominators(sf, f(k - 1));
        lemma_positive_denominators(sg, g(k - 1));
        lemma_add_congruent(sh, raw_add(sf, sg), h(k - 1), h(k - 1));
        lemma_add_swap_middle(sf, sg, f(k - 1), g(k - 1));
        lemma_positive_denominators(raw_add(sf, sg), h(k - 1));
        lemma_same_value_trans(
            raw_add(sh, h(k - 1)),
            raw_add(raw_add(sf, sg), raw_add(f(k - 1), g(k - 1))),
            raw_add(raw_add(sf, f(k - 1)), raw_add(sg, g(k - 1))),
        );
    }
}

/// A common factor comes out of a sum.
pub proof fn lemma_sum_scale(c: FracValue, f: spec_fn(int) -> FracValue, k: int)
    requires
        c.den > 0,
        forall|i: int| 0 <= i < k ==> (#[trigger] f(i)).den > 0,
    ensures
        same_value(raw_sum(|i: int| raw_mul(c, f(i)), k), raw_mul(c, raw_sum(f, k))),
        raw_sum(f, k).den > 0,
        raw_sum(|i: int| raw_mul(c, f(i)), k).den > 0,
    decreases k,
{
    let h = |i: int| raw_mul(c, f(i));
    if k <= 0 {
        assert(c.num * 0 == 0) by (nonlinear_arith);
        assert(0 * (c.den * 1) == (c.num * 0) * 1) by (nonlinear_arith);
    } else {
        lemma_sum_scale(c, f, k - 1);
        let (sh, sf) = (raw_sum(h, k - 1), raw_sum(f, k - 1));
        lemma_positive_denominators(c, f(k - 1));
        lemma_positive_denominators(c, sf);
        lemma_positive_denominators(sf, f(k - 1));
        lemma_positive_denominators(sh, h(k - 1));
        lemma_positive_denominators(raw_mul(c, sf), h(k - 1));
        lemma_add_congruent(sh, raw_mul(c, sf), h(k - 1), h(k - 1));
        lemma_mul_distributes(c, sf, f(k - 1));
        lemma_same_value_trans(raw_add(sh, h(k - 1)), raw_add(raw_mul(c, sf), h(k - 1)), raw_mul(c, raw_add(sf, f(k - 1))));
    }
}

/// The order of a double sum does not matter.
pub proof fn lemma_sum_exchange(f: spec_fn(int, int) -> FracValue, n1: int, n2: int)
    requires
        0 <= n2,
        forall|l: int, j: int| 0 <= l < n1 && 0 <= j < n2 ==> (#[trigger] f(l, j)).den > 0,
    ensures
        same_value(
            raw_sum(|j: int| raw_sum(|l: int| f(l, j), n1), n2),
            raw_sum(|l: int| raw_sum(|j: int| f(l, j), n2), n1),
        ),
        raw_sum(|j: int| raw_sum(|l: int| f(l, j), n1), n2).den > 0,
        raw_sum(|l: int| raw_sum(|j: int| f(l, j), n2), n1).den > 0,
    decreases n1,
{
    let outer_j = |j: int| raw_sum(|l: int| f(l, j), n1);
    let outer_l = |l: int| raw_sum(|j: int| f(l, j), n2);
    if n1 <= 0 {
        let zero = |j: int| frac_zero();
        assert forall|j: int| 0 <= j < n2 implies same_value(#[trigger] outer_j(j), zero(j)) && outer_j(j).den > 0 by {
        }
        lemma_sum_congruent(outer_j, zero, n2);
        lemma_sum_zero(n2);
        lemma_sum_extensional(zero, |j: int| frac_zero(), n2);
        lemma_same_value_trans(raw_sum(outer_j, n2), raw_sum(zero, n2), frac_zero());
    } else {
        lemma_sum_exchange(f, n1 - 1, n2);
        let prev = |j: int| raw_sum(|l: int| f(l, j), n1 - 1);
        let last = |j: int| f(n1 - 1, j);
        // each inner sum splits off its last term
        assert forall|j: int| 0 <= j < n2 implies same_value(#[trigger] outer_j(j), raw_add(prev(j), last(j)))
            && outer_j(j).den > 0 && raw_add(prev(j), last(j)).den > 0 by {
            assert(outer_j(j) == raw_add(prev(j), last(j)));
            lemma_sum_positive(|l: int| f(l, j), n1);
            lemma_sum_positive(|l: int| f(l, j), n1 - 1);
            lemma_positive_denominators(prev(j), last(j));
        }
        let split = |j: int| raw_add(prev(j), last(j));
        lemma_sum_congruent(outer_j, split, n2);
        assert forall|j: int| 0 <= j < n2 implies (#[trigger] prev(j)).den > 0 && last(j).den > 0 by {
            lemma_sum_positive(|l: int| f(l, j), n1 - 1);
        }
        lemma_sum_add(prev, last, n2);
        lemma_sum_extensional(split, |i: int| raw_add(prev(i), last(i)), n2);
        assert forall|j: int| 0 <= j < n2 implies (#[trigger] split(j)).den > 0 by {
            lemma_positive_denominators(prev(j), last(j));
        }
        lemma_sum_positive(split, n2);
        lemma_sum_positive(prev, n2);
        lemma_sum_positive(last, n2);
        lemma_same_value_trans(raw_sum(outer_j, n2), raw_sum(split, n2), raw_add(raw_sum(prev, n2), raw_sum(last, n2)));
        // the first part is the exchanged sum over `n1 - 1`
        let a = raw_sum(prev, n2);
        let b = raw_sum(|l: int| raw_sum(|j: int| f(l, j), n2), n1 - 1);
        assert(raw_sum(outer_l, n1 - 1) == b) by {
            lemma_sum_extensional(outer_l, |l: int| raw_sum(|j: int| f(l, j), n2), n1 - 1);
        }
        assert(a == raw_sum(|j: int| raw_sum(|l: int| f(l, j), n1 - 1), n2));
        lemma_add_congruent(a, b, raw_sum(last, n2), raw_sum(last, n2));
        lemma_sum_positive(last, n2);
        assert(outer_l(n1 - 1) == raw_sum(last, n2)) by {
            lemma_sum_extensional(|j: int| f(n1 - 1, j), last, n2);
        }
        lemma_positive_denominators(a, raw_sum(last, n2));
        lemma_positive_denominators(b, raw_sum(last, n2));
        assert(raw_sum(prev, n2) == a);
        lemma_same_value_trans(raw_sum(outer_j, n2), raw_add(a, raw_sum(last, n2)), raw_add(b, raw_sum(last, n2)));
        assert forall|l: int| 0 <= l < n1 implies (#[trigger] outer_l(l)).den > 0 by {
            lemma_sum_positive(|j: int| f(l, j), n2);
        }
        lemma_sum_positive(outer_l, n1);
        assert(raw_sum(outer_l, n1) == raw_add(raw_sum(outer_l, n1 - 1), outer_l(n1 - 1)));
    }
}

/// Sums of positive denominators have positive denominators.
pub proof fn lemma_sum_positive(f: spec_fn(int) -> FracValue, k: int)
    requires
        forall|i: int| 0 <= i < k ==> (#[trigger] f(i)).den > 0,
    ensures
        raw_sum(f, k).den > 0,
    decreases k,
{
    if k > 0 {
        lemma_sum_positive(f, k - 1);
        lemma_positive_denominators(raw_sum(f, k - 1), f(k - 1));
    }
}

/// Sums of pointwise equal functions are equal.
pub proof fn lemma_sum_extensional(f: spec_fn(int) -> FracValue, g: spec_fn(int) -> FracValue, k: int)
    requires
        forall|i: int| 0 <= i < k ==> #[trigger] f(i) == g(i),
    ensures
        raw_sum(f, k) == raw_sum(g, k),
    decreases k,
{
    if k > 0 {
        lemma_sum_extensional(f, g, k - 1);
    }
}

/// A sum of zeros is zero.
pub proof fn lemma_sum_zero(k: int)
    ensures
        same_value(raw_sum(|j: int| frac_zero(), k), frac_zero()),
        raw_sum(|j: int| frac_zero(), k).den > 0,
    decreases k,
{
    if k > 0 {
        lemma_sum_zero(k - 1);
        let s = raw_sum(|j: int| frac_zero(), k - 1);
        assert(s.num == 0);
        assert(0 * 1 + 0 * s.den == 0) by (nonlinear_arith);
        lemma_positive_denominators(s, frac_zero());
    }
}

/// `perm` is a bijection of `0..n` onto itself.
pub open spec fn is_permutation(perm: Seq<int>, n: int) -> bool {
    &&& perm.len() == n
    &&& forall|i: int| 0 <= i < n ==> 0 <= #[trigger] perm[i] < n
    &&& forall|i: int, j: int| 0 <= i < j < n ==> perm[i] != perm[j]
    &&& forall|k: int| 0 <= k < n ==> #[trigger] takes_value(perm, n, k)
}

/// Some position below `n` of `perm` holds `k`.
pub open spec fn takes_value(perm: Seq<int>, n: int, k: int) -> bool {
    exists|i: int| 0 <= i < n && perm[i] == k
}

/// Taking out the term at `j`: the sum is the sum of the others plus that term.
proof fn lemma_sum_remove(h: spec_fn(int) -> FracValue, j: int, n: int)
    requires
        0 <= j < n,
        forall|i: int| 0 <= i < n ==> (#[trigger] h(i)).den > 0,
    ensures
        same_value(raw_sum(h, n), raw_add(raw_sum(|i: int| if i < j { h(i) } else { h(i + 1) }, n - 1), h(j))),
        raw_sum(|i: int| if i < j { h(i) } else { h(i + 1) }, n - 1).den > 0,
    decreases n,
{
    let rest = |i: int| if i < j { h(i) } else { h(i + 1) };
    assert forall|i: int| 0 <= i < n - 1 implies (#[trigger] rest(i)).den > 0 by {
        if i < j {
            assert(h(i).den > 0);
        } else {
            assert(h(i + 1).den > 0);
        }
    }
    lemma_sum_positive(rest, n - 1);
    lemma_sum_positive(h, n);
    if j == n - 1 {
        lemma_sum_extensional(rest, h, n - 1);
        assert(raw_sum(h, n) == raw_add(raw_sum(h, n - 1), h(n - 1)));
    } else {
        lemma_sum_remove(h, j, n - 1);
        let a = raw_sum(rest, n - 2);
        assert(raw_sum(|i: int| if i < j { h(i) } else { h(i + 1) }, n - 2) == a) by {
            lemma_sum_extensional(rest, |i: int| if i < j { h(i) } else { h(i + 1) }, n - 2);
        }
        assert(raw_sum(rest, n - 1) == raw_add(a, h(n - 1)));
        let hj = h(j);
        let hn = h(n - 1);
        lemma_sum_positive(rest, n - 2);
        lemma_sum_positive(h, n - 1);
        assert(hj.den > 0 && hn.den > 0);
        // (a + hj) + hn ~ (a + hn) + hj
        lemma_add_congruent(raw_sum(h, n - 1), raw_add(a, hj), hn, hn);
        lemma_raw_add_assoc(a, hj, hn);
        lemma_add_commutes(hj, hn);
        lemma_add_congruent(a, a, raw_add(hj, hn), raw_add(hn, hj));
        lemma_raw_add_assoc(a, hn, hj);
        lemma_positive_denominators(a, hj);
        lemma_positive_denominators(raw_add(a, hj), hn);
        lemma_positive_denominators(hj, hn);
        lemma_positive_denominators(a, raw_add(hj, hn));
        lemma_same_value_trans(raw_sum(h, n), raw_add(raw_add(a, hj), hn), raw_add(a, raw_add(hn, hj)));
    }
}

/// Reordering the terms does not change a sum.
pub proof fn lemma_sum_permute(f: spec_fn(int) -> FracValue, perm: Seq<int>, n: int)
    requires
        0 <= n,
        is_permutation(perm, n),
        forall|i: int| 0 <= i < n ==> (#[trigger] f(i)).den > 0,
    ensures
        same_value(raw_sum(|i: int| f(perm[i]), n), raw_sum(f, n)),
    decreases n,
{
    let g = |i: int| f(perm[i]);
    if n > 0 {
        assert(takes_value(perm, n, n - 1));
        let j = choose|i: int| 0 <= i < n && perm[i] == n - 1;
        let perm2 = Seq::new((n - 1) as nat, |i: int| if i < j { perm[i] } else { perm[i + 1] });
        assert(is_permutation(perm2, n - 1)) by {
            assert forall|i: int| 0 <= i < n - 1 implies 0 <= #[trigger] perm2[i] < n - 1 by {
                if i < j {
                    assert(perm[i] != perm[j]);
                } else {
                    assert(perm[j] != perm[i + 1]);
                }
            }
            assert forall|a: int, b: int| 0 <= a < b < n - 1 implies perm2[a] != perm2[b] by {
                let a2 = if a < j { a } else { a + 1 };
                let b2 = if b < j { b } else { b + 1 };
                assert(perm2[a] == perm[a2] && perm2[b] == perm[b2]);
                assert(a2 < b2);
            }
            assert forall|k: int| 0 <= k < n - 1 implies #[trigger] takes_value(perm2, n - 1, k) by {
                assert(takes_value(perm, n, k));
                let i0 = choose|i: int| 0 <= i < n && perm[i] == k;
                assert(i0 != j);
                if i0 < j {
                    assert(perm2[i0] == k);
                } else {
                    assert(perm2[i0 - 1] == k);
                }
            }
        }
        assert forall|i: int| 0 <= i < n implies (#[trigger] g(i)).den > 0 by {
            assert(0 <= perm[i] < n);
        }
        lemma_sum_remove(g, j, n);
        let rest = |i: int| if i < j { g(i) } else { g(i + 1) };
        let g2 = |i: int| f(perm2[i]);
        lemma_sum_extensional(rest, g2, n - 1);
        lemma_sum_extensional(|i: int| if i < j { g(i) } else { g(i + 1) }, rest, n - 1);
        lemma_sum_permute(f, perm2, n - 1);
        lemma_sum_extensional(g2, |i: int| f(perm2[i]), n - 1);
        lemma_sum_positive(f, n - 1);
        lemma_sum_positive(g2, n - 1);
        assert(g(j) == f(n - 1));
        assert(f(n - 1).den > 0);
        lemma_add_congruent(raw_sum(g2, n - 1), raw_sum(f, n - 1), g(j), f(n - 1));
        lemma_positive_denominators(raw_sum(g2, n - 1), g(j));
        lemma_same_value_trans(raw_sum(g, n), raw_add(raw_sum(g2, n - 1), g(j)), raw_add(raw_sum(f, n - 1), f(n - 1)));
        lemma_sum_extensional(g, |i: int| f(perm[i]), n);
    }
}

} // verus!
