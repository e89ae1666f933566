//! Expected number of visits to each state of an SDFA: the row of the
//! initial state in `(I - P)^-1`, where `P` is the transition matrix.

use vstd::prelude::*;
use crate::automaton::Sdfa;
use crate::fraction::{
    FracValue, Fraction, frac_add, frac_mul, frac_one, frac_zero, is_reduced, lemma_normalize_reduced,
    lemma_normalize_zero, lemma_normalize_constants,
};
use crate::matrix::{
    assert_entries_reduced, assert_vector_reduced, delta, dot, identity_minus, identity_minus_spec, inverse_of, invert,
    is_square, matrix_view, row_times_matrix, vector_matrix_entry, vector_view,
};
use crate::validity::{GainError, is_one_value};

verus! {

/// Total probability of the transitions among the first `k` that go from
/// `r` to `c` (transitions with probability zero are left out).
pub open spec fn transition_weight(s: Sdfa, r: int, c: int, k: int) -> FracValue
    decreases k,
{
    if k <= 0 {
        frac_zero()
    } else if s.sources[k - 1] == r && s.targets[k - 1] == c && s.probabilities[k - 1]@.num != 0 {
        frac_add(transition_weight(s, r, c, k - 1), s.probabilities[k - 1]@)
    } else {
        transition_weight(s, r, c, k - 1)
    }
}

/// The transition matrix `P` of the SDFA.
pub open spec fn transition_matrix(s: Sdfa) -> Seq<Seq<FracValue>> {
    Seq::new(
        s.num_states(),
        |r: int| Seq::new(s.num_states(), |c: int| transition_weight(s, r, c, s.num_transitions() as int)),
    )
}

/// The vector with `1` at `s0` and `0` elsewhere.
pub open spec fn unit_vector(n: nat, s0: int) -> Seq<FracValue> {
    Seq::new(n, |i: int| delta(i, s0))
}

/// The row vector `e_{s0}` times the matrix `f`.
pub open spec fn visits_from(s0: int, f: Seq<Seq<FracValue>>) -> Seq<FracValue> {
    Seq::new(f.len(), |j: int| vector_matrix_entry(unit_vector(f.len(), s0), f, j, f.len() as int))
}

/// The expected numbers of visits computed by `c_s`, given the inversion's outcome.
pub open spec fn expected_visits(s: Sdfa) -> Option<Seq<FracValue>> {
    match s.initial_state {
        None => None,
        Some(s0) => match inverse_of(identity_minus_spec(transition_matrix(s))) {
            None => None,
            Some(f) => Some(visits_from(s0 as int, f)),
        },
    }
}

/// `sum_{l < k} c[l] * m[l][j]`: entry `j` of the row vector `c` times `m`.
pub open spec fn column_dot(c: Seq<FracValue>, m: Seq<Seq<FracValue>>, j: int, k: int) -> FracValue
    decreases k,
{
    if k <= 0 {
        frac_zero()
    } else {
        frac_add(column_dot(c, m, j, k - 1), frac_mul(c[k - 1], m[k - 1][j]))
    }
}

/// `c (I - P) = e_{s0}`: `c` holds the expected numbers of visits.
pub open spec fn solves_visits_equation(s: Sdfa, c: Seq<FracValue>) -> bool {
    let m = identity_minus_spec(transition_matrix(s));
    let n = s.num_states();
    &&& c.len() == n
    &&& forall|j: int|
        0 <= j < n ==> {
            let e = #[trigger] column_dot(c, m, j, n as int);
            if j == s.initial_state->0 {
                is_one_value(e)
            } else {
                e.num == 0
            }
        }
}

proof fn lemma_add_zero(x: FracValue)
    requires
        is_reduced(x),
    ensures
        frac_add(x, frac_zero()) == x,
        frac_add(frac_zero(), x) == x,
{
    assert(x.num * 1 + 0 * x.den == x.num);
    assert(0 * x.den + x.num * 1 == x.num);
    assert(x.den * 1 == x.den);
    assert(1 * x.den == x.den);
    lemma_normalize_reduced(x);
}

proof fn lemma_mul_delta(x: FracValue, i: int, s0: int)
    requires
        is_reduced(x),
    ensures
        frac_mul(x, delta(i, s0)) == (if i == s0 { x } else { frac_zero() }),
{
    assert(x.num * 1 == x.num);
    assert(x.den * 1 == x.den);
    assert(x.num * 0 == 0);
    if i == s0 {
        lemma_normalize_reduced(x);
    } else {
        lemma_normalize_zero(x.den);
    }
}

/// Accumulating `e_{s0} * f` over the first `k` rows gives `f[s0][j]` once
/// row `s0` is included, and zero before.
proof fn lemma_unit_row(s0: int, f: Seq<Seq<FracValue>>, j: int, k: int)
    requires
        0 <= k <= f.len(),
        0 <= s0 < f.len(),
        forall|l: int| 0 <= l < f.len() ==> is_reduced(#[trigger] f[l][j]),
    ensures
        vector_matrix_entry(unit_vector(f.len(), s0), f, j, k) == (if k > s0 { f[s0][j] } else { frac_zero() }),
    decreases k,
{
    if k > 0 {
        lemma_unit_row(s0, f, j, k - 1);
        let u = unit_vector(f.len(), s0);
        assert(u[k - 1] == delta(k - 1, s0));
        lemma_mul_delta(f[k - 1][j], k - 1, s0);
        lemma_normalize_constants();
        reveal_with_fuel(crate::fraction::gcd, 2);
        assert(is_reduced(frac_zero()));
        if k - 1 >= s0 {
            lemma_add_zero(f[s0][j]);
        } else {
            lemma_add_zero(frac_zero());
        }
    }
}

proof fn lemma_column_dot_row(c: Seq<FracValue>, f: Seq<Seq<FracValue>>, m: Seq<Seq<FracValue>>, s0: int, j: int, k: int)
    requires
        0 <= k <= c.len(),
        forall|l: int| 0 <= l < c.len() ==> #[trigger] c[l] == f[s0][l],
    ensures
        column_dot(c, m, j, k) == dot(f, m, s0, j, k),
    decreases k,
{
    if k > 0 {
        lemma_column_dot_row(c, f, m, s0, j, k - 1);
        assert(c[k - 1] == f[s0][k - 1]);
    }
}

/// The transition matrix `P` (as `FractionMatrix::new` and `increase` build it).
pub fn transition_matrix_of(sdfa: &Sdfa) -> (r: Vec<Vec<Fraction>>)
    requires
        sdfa.wf(),
    ensures
        matrix_view(r@) == transition_matrix(*sdfa),
{
    let n = sdfa.terminating_probabilities.len();
    let m = sdfa.sources.len();
    let mut p: Vec<Vec<Fraction>> = Vec::new();
    let mut r: usize = 0;
    while r < n
        invariant
            sdfa.wf(),
            n == sdfa.num_states(),
            m == sdfa.num_transitions(),
            r <= n,
            p.len() == r,
            forall|k: int| 0 <= k < r ==> vector_view((#[trigger] p[k])@) == transition_matrix(*sdfa)[k],
        decreases n - r,
    {
        let mut row: Vec<Fraction> = Vec::new();
        let mut c: usize = 0;
        while c < n
            invariant
                c <= n,
                row.len() == c,
                forall|l: int| 0 <= l < c ==> (#[trigger] row[l])@ == frac_zero(),
            decreases n - c,
        {
            row.push(Fraction::zero());
            c = c + 1;
        }
        let mut i: usize = 0;
        while i < m
            invariant
                sdfa.wf(),
                n == sdfa.num_states(),
                m == sdfa.num_transitions(),
                r < n,
                i <= m,
                row.len() == n,
                forall|l: int| 0 <= l < n ==> (#[trigger] row[l])@ == transition_weight(*sdfa, r as int, l, i as int),
            decreases m - i,
        {
            if sdfa.sources[i] == r && !sdfa.probabilities[i].is_zero() {
                let t = sdfa.targets[i];
                let v = row[t].add(&sdfa.probabilities[i]);
                row.set(t, v);
            }
            i = i + 1;
        }
        proof {
            assert(vector_view(row@) =~= transition_matrix(*sdfa)[r as int]);
        }
        p.push(row);
        r = r + 1;
    }
    proof {
        assert(matrix_view(p@) =~= transition_matrix(*sdfa));
    }
    p
}

/// The row of `s0` in `f`, computed as `e_{s0} * f` (`Vec * FractionMatrix`).
pub fn visits_from_inverse(s0: usize, f: &Vec<Vec<Fraction>>) -> (r: Vec<Fraction>)
    requires
        s0 < f.len(),
        is_square(matrix_view(f@), f.len() as nat),
    ensures
        vector_view(r@) == visits_from(s0 as int, matrix_view(f@)),
{
    let n = f.len();
    let mut e0: Vec<Fraction> = Vec::new();
    let mut i: usize = 0;
    while i < n
        invariant
            n == f.len(),
            i <= n,
            e0.len() == i,
            forall|l: int| 0 <= l < i ==> (#[trigger] e0[l])@ == delta(l, s0 as int),
        decreases n - i,
    {
        if i == s0 {
            e0.push(Fraction::one());
        } else {
            e0.push(Fraction::zero());
        }
        i = i + 1;
    }
    proof {
        assert(vector_view(e0@) =~= unit_vector(n as nat, s0 as int));
    }
    let c = row_times_matrix(&e0, f);
    proof {
        assert(vector_view(c@) =~= visits_from(s0 as int, matrix_view(f@)));
    }
    c
}

/// Expected number of visits to each state before termination: the row of
/// the initial state in `(I - P)^-1`.
pub fn c_s(sdfa: &Sdfa) -> (r: Result<Vec<Fraction>, GainError>)
    requires
        sdfa.wf(),
    ensures
        sdfa.initial_state is None ==> r matches Err(GainError::NoStartState),
        sdfa.initial_state is Some ==> match expected_visits(*sdfa) {
            None => r matches Err(GainError::NotInvertible),
            Some(c) => r matches Ok(v) && vector_view(v@) == c,
        },
        r matches Ok(v) ==> v.len() == sdfa.num_states(),
        r matches Ok(v) ==> solves_visits_equation(*sdfa, vector_view(v@)),
        r matches Ok(v) ==> forall|l: int| 0 <= l < v.len() ==> is_reduced(#[trigger] vector_view(v@)[l]),
{
    let s0 = match sdfa.initial_state {
        Some(s) => s,
        None => return Err(GainError::NoStartState),
    };
    let p = transition_matrix_of(sdfa);
    let m = identity_minus(&p);
    proof {
        let pm = transition_matrix(*sdfa);
        assert(matrix_view(p@).len() == sdfa.num_states());
        assert(identity_minus_spec(pm).len() == sdfa.num_states());
        assert(matrix_view(m@).len() == m@.len());
        assert(m.len() == sdfa.num_states());
        assert forall|i: int| 0 <= i < sdfa.num_states() implies (#[trigger] matrix_view(m@)[i]).len()
            == sdfa.num_states() by {
            assert(pm[i].len() == sdfa.num_states());
            assert(matrix_view(m@)[i] == identity_minus_spec(pm)[i]);
        }
        assert(is_square(matrix_view(m@), m.len() as nat));
    }
    match invert(&m) {
        None => Err(GainError::NotInvertible),
        Some(f) => {
            let v = visits_from_inverse(s0, &f);
            assert(vector_view(v@).len() == f.len());
            assert_entries_reduced(&f);
            proof {
                let n = sdfa.num_states();
                let fv = matrix_view(f@);
                let mv = matrix_view(m@);
                let cv = vector_view(v@);
                assert forall|l: int| 0 <= l < cv.len() implies #[trigger] cv[l] == fv[s0 as int][l] by {
                    assert(fv[l].len() == n);
                    assert forall|i: int| 0 <= i < fv.len() implies is_reduced(#[trigger] fv[i][l]) by {
                        assert(fv[i].len() == n);
                        assert(fv[i] == vector_view(f@[i]@));
                        assert(f@[i].len() == n);
                    }
                    lemma_unit_row(s0 as int, fv, l, n as int);
                }
                assert forall|j: int| 0 <= j < n implies {
                    let e = #[trigger] column_dot(cv, mv, j, n as int);
                    if j == s0 { is_one_value(e) } else { e.num == 0 }
                } by {
                    lemma_column_dot_row(cv, fv, mv, s0 as int, j, n as int);
                }
            }
            assert_vector_reduced(&v);
            Ok(v)
        },
    }
}

} // verus!
