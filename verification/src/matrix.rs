//! Square matrices of fractions, as vectors of rows, with the operations
//! that the expected-visits computation needs.

use vstd::prelude::*;
use ebi_arithmetic::matrix::fraction_matrix_exact::FractionMatrixExact;
use ebi_arithmetic::fraction::fraction_exact::FractionExact;
use ebi_arithmetic::{EbiMatrix, Inversion};
use crate::fraction::{FracValue, Fraction, frac_add, frac_mul, frac_one, frac_sub, frac_zero, is_reduced};
use crate::validity::is_one_value;

verus! {

#[verifier::external_type_specification]
#[verifier::external_body]
pub struct ExFractionMatrixExact(FractionMatrixExact);

/// The error type of `ebi_arithmetic`'s matrix operations, which Verus meets
/// in the outputs of the matrix products this module calls.
#[verifier::external_type_specification]
#[verifier::external_body]
pub struct ExAnyhowError(anyhow::Error);

/// The values of a vector of fractions.
pub open spec fn vector_view(v: Seq<Fraction>) -> Seq<FracValue> {
    v.map_values(|f: Fraction| f@)
}

/// The values of a matrix given as rows.
pub open spec fn matrix_view(m: Seq<Vec<Fraction>>) -> Seq<Seq<FracValue>> {
    m.map_values(|row: Vec<Fraction>| vector_view(row@))
}

/// `m` has `n` rows of `n` entries.
pub open spec fn is_square(m: Seq<Seq<FracValue>>, n: nat) -> bool {
    m.len() == n && forall|i: int| 0 <= i < n ==> (#[trigger] m[i]).len() == n
}

/// `1` on the diagonal, `0` elsewhere.
pub open spec fn delta(i: int, j: int) -> FracValue {
    if i == j {
        frac_one()
    } else {
        frac_zero()
    }
}

/// `sum_{l < k} a[i][l] * b[l][j]`.
pub open spec fn dot(a: Seq<Seq<FracValue>>, b: Seq<Seq<FracValue>>, i: int, j: int, k: int) -> FracValue
    decreases k,
{
    if k <= 0 {
        frac_zero()
    } else {
        frac_add(dot(a, b, i, j, k - 1), frac_mul(a[i][k - 1], b[k - 1][j]))
    }
}

/// The product of two `n x n` matrices is the identity.
pub open spec fn product_is_identity(a: Seq<Seq<FracValue>>, b: Seq<Seq<FracValue>>, n: nat) -> bool {
    forall|i: int, j: int|
        0 <= i < n && 0 <= j < n ==> {
            let e = #[trigger] dot(a, b, i, j, n as int);
            if i == j {
                is_one_value(e)
            } else {
                e.num == 0
            }
        }
}

/// The result of `FractionMatrixExact::invert` on a square matrix, if it succeeds.
pub uninterp spec fn inverse_of(m: Seq<Seq<FracValue>>) -> Option<Seq<Seq<FracValue>>>;

/// `I - m`.
pub open spec fn identity_minus_spec(m: Seq<Seq<FracValue>>) -> Seq<Seq<FracValue>> {
    Seq::new(m.len(), |i: int| Seq::new(m[i].len(), |j: int| frac_sub(delta(i, j), m[i][j])))
}

/// `sum_{l < k} m[l][j] * v[l]`, accumulated from row 0 upwards.
pub open spec fn vector_matrix_entry(v: Seq<FracValue>, m: Seq<Seq<FracValue>>, j: int, k: int) -> FracValue
    decreases k,
{
    if k <= 0 {
        frac_zero()
    } else {
        frac_add(vector_matrix_entry(v, m, j, k - 1), frac_mul(m[k - 1][j], v[k - 1]))
    }
}

#[verifier::external_body]
fn rows_to_exact(m: &Vec<Vec<Fraction>>) -> Vec<Vec<FractionExact>> {
    m.iter().map(|row| row.iter().map(|f| f.to_exact()).collect()).collect()
}

#[verifier::external_body]
fn rows_from_exact(m: Vec<Vec<FractionExact>>) -> Vec<Vec<Fraction>> {
    m.into_iter().map(|row| row.into_iter().map(Fraction::from_exact).collect()).collect()
}

/// `FractionMatrixExact::invert` (Gauss-Jordan elimination without row
/// exchanges): when it succeeds, the result is the inverse of the matrix.
/// Whether it succeeds is not stated beyond the name `inverse_of`.
#[verifier::external_body]
pub fn invert(m: &Vec<Vec<Fraction>>) -> (r: Option<Vec<Vec<Fraction>>>)
    requires
        is_square(matrix_view(m@), m.len() as nat),
    ensures
        r is Some <==> inverse_of(matrix_view(m@)) is Some,
        r matches Some(f) ==> {
            &&& matrix_view(f@) == inverse_of(matrix_view(m@))->0
            &&& is_square(matrix_view(f@), m.len() as nat)
            &&& product_is_identity(matrix_view(m@), matrix_view(f@), m.len() as nat)
            &&& product_is_identity(matrix_view(f@), matrix_view(m@), m.len() as nat)
        },
{
    match FractionMatrixExact::try_from(rows_to_exact(m)) {
        Ok(exact) => exact.invert().ok().map(|f| rows_from_exact(f.to_vec())),
        Err(_) => None,
    }
}

/// `&Vec<FractionExact> * &FractionMatrixExact`: the row vector `v` times `m`.
#[verifier::external_body]
pub fn row_times_matrix(v: &Vec<Fraction>, m: &Vec<Vec<Fraction>>) -> (r: Vec<Fraction>)
    requires
        v.len() == m.len(),
        is_square(matrix_view(m@), m.len() as nat),
    ensures
        r.len() == m.len(),
        forall|j: int|
            0 <= j < m.len() ==> (#[trigger] r[j])@ == vector_matrix_entry(
                vector_view(v@),
                matrix_view(m@),
                j,
                m.len() as int,
            ),
{
    let row: Vec<FractionExact> = v.iter().map(|f| f.to_exact()).collect();
    match FractionMatrixExact::try_from(rows_to_exact(m)) {
        Ok(exact) => match &row * &exact {
            Ok(r) => r.into_iter().map(Fraction::from_exact).collect(),
            Err(_) => Vec::new(),
        },
        Err(_) => Vec::new(),
    }
}

/// Every entry of a vector of fractions is in lowest terms (the invariant of
/// `Fraction`; no run-time effect).
pub(crate) fn assert_vector_reduced(v: &Vec<Fraction>)
    ensures
        forall|i: int| 0 <= i < v.len() ==> is_reduced(#[trigger] vector_view(v@)[i]),
{
    let mut i: usize = 0;
    while i < v.len()
        invariant
            i <= v.len(),
            forall|k: int| 0 <= k < i ==> is_reduced(#[trigger] vector_view(v@)[k]),
        decreases v.len() - i,
    {
        v[i].assert_reduced();
        i = i + 1;
    }
}

/// Every entry of a matrix of fractions is in lowest terms (the invariant of
/// `Fraction`; no run-time effect).
pub(crate) fn assert_entries_reduced(m: &Vec<Vec<Fraction>>)
    ensures
        forall|i: int, j: int|
            0 <= i < m.len() && 0 <= j < m[i].len() ==> is_reduced(#[trigger] matrix_view(m@)[i][j]),
{
    let mut i: usize = 0;
    while i < m.len()
        invariant
            i <= m.len(),
            forall|k: int, j: int|
                0 <= k < i && 0 <= j < m[k].len() ==> is_reduced(#[trigger] matrix_view(m@)[k][j]),
        decreases m.len() - i,
    {
        let mut j: usize = 0;
        while j < m[i].len()
            invariant
                i < m.len(),
                j <= m[i as int].len(),
                forall|l: int| 0 <= l < j ==> is_reduced(#[trigger] matrix_view(m@)[i as int][l]),
            decreases m[i as int].len() - j,
        {
            m[i][j].assert_reduced();
            j = j + 1;
        }
        i = i + 1;
    }
}

/// `I - m` (as `IdentityMinus::identity_minus` computes it).
pub fn identity_minus(m: &Vec<Vec<Fraction>>) -> (r: Vec<Vec<Fraction>>)
    ensures
        matrix_view(r@) == identity_minus_spec(matrix_view(m@)),
{
    let n = m.len();
    let mut result: Vec<Vec<Fraction>> = Vec::new();
    let mut i: usize = 0;
    while i < n
        invariant
            n == m.len(),
            i <= n,
            result.len() == i,
            forall|k: int|
                0 <= k < i ==> vector_view((#[trigger] result[k])@) == identity_minus_spec(
                    matrix_view(m@),
                )[k],
        decreases n - i,
    {
        let row = &m[i];
        let mut new_row: Vec<Fraction> = Vec::new();
        let mut j: usize = 0;
        while j < row.len()
            invariant
                i < n,
                n == m.len(),
                row == m[i as int],
                j <= row.len(),
                new_row.len() == j,
                forall|l: int|
                    0 <= l < j ==> (#[trigger] new_row[l])@ == frac_sub(delta(i as int, l), row[l]@),
            decreases row.len() - j,
        {
            let d = if i == j {
                Fraction::one()
            } else {
                Fraction::zero()
            };
            new_row.push(d.sub(&row[j]));
            j = j + 1;
        }
        proof {
            assert(vector_view(new_row@) =~= identity_minus_spec(matrix_view(m@))[i as int]);
        }
        result.push(new_row);
        i = i + 1;
    }
    proof {
        assert(matrix_view(result@) =~= identity_minus_spec(matrix_view(m@)));
    }
    result
}

} // verus!
