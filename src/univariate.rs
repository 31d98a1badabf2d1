//! Univariate polynomials in coefficient form: evaluation, addition, scaling,
//! multiplication and Lagrange interpolation.

use crate::field::{fadd, fdiv, fmul, fsub, modulus, Fe};
use crate::multilinear::values;
use vstd::arithmetic::power::pow;
use vstd::prelude::*;

verus! {

/// `Σ c[i] * x^i`, summed in order of `i`.
pub open spec fn poly_eval(c: Seq<int>, x: int) -> int
    decreases c.len(),
{
    if c.len() == 0 {
        0
    } else {
        fadd(
            poly_eval(c.drop_last(), x),
            fmul(c.last(), pow(x, (c.len() - 1) as nat) % modulus()),
        )
    }
}

/// Each coefficient times `s`.
pub open spec fn poly_scale(s: int, v: Seq<int>) -> Seq<int> {
    Seq::new(v.len(), |i: int| fmul(v[i], s))
}

/// The coefficient-wise sum; the longer operand's extra coefficients are
/// kept as they are.
pub open spec fn poly_add(a: Seq<int>, b: Seq<int>) -> Seq<int> {
    Seq::new(
        if a.len() >= b.len() {
            a.len()
        } else {
            b.len()
        },
        |i: int|
            if i < a.len() && i < b.len() {
                fadd(a[i], b[i])
            } else if i < a.len() {
                a[i]
            } else {
                b[i]
            },
    )
}

/// `Σ a[i] * b[k - i]` over `i < m` with `k - i` an index of `b`, summed in
/// order of `i`.
pub open spec fn conv_upto(a: Seq<int>, b: Seq<int>, k: int, m: int) -> int
    decreases m,
{
    if m <= 0 {
        0
    } else {
        let prev = conv_upto(a, b, k, m - 1);
        if 0 <= k - (m - 1) < b.len() {
            fadd(prev, fmul(a[m - 1], b[k - (m - 1)]))
        } else {
            prev
        }
    }
}

/// The product of two polynomials.
pub open spec fn poly_mul(a: Seq<int>, b: Seq<int>) -> Seq<int> {
    Seq::new((a.len() + b.len() - 1) as nat, |k: int| conv_upto(a, b, k, a.len() as int))
}

/// `Π (X - set[j])` over the `j < m` with `set[j] != x`.
pub open spec fn basis_numerator(set: Seq<int>, x: int, m: nat) -> Seq<int>
    decreases m,
{
    if m == 0 {
        seq![1]
    } else {
        let prev = basis_numerator(set, x, (m - 1) as nat);
        if set[m - 1] != x {
            poly_mul(prev, seq![fsub(0, set[m - 1]), 1])
        } else {
            prev
        }
    }
}

/// The Lagrange combination of the first `m` points, added into zero
/// coefficients of the length of `xs`.
pub open spec fn lagrange_sum(xs: Seq<int>, ys: Seq<int>, m: nat) -> Seq<int>
    decreases m,
{
    if m == 0 {
        Seq::new(xs.len(), |i: int| 0)
    } else {
        let num = basis_numerator(xs, xs[m - 1], xs.len());
        poly_add(
            lagrange_sum(xs, ys, (m - 1) as nat),
            poly_scale(fdiv(ys[m - 1], poly_eval(num, xs[m - 1])), num),
        )
    }
}

/// `Σ coefficients[i] * point^i`.
pub fn evaluate(coefficients: &Vec<Fe>, point: Fe) -> (r: Fe)
    ensures
        r@ == poly_eval(values(coefficients@), point@),
{
    let mut result = Fe::zero();
    let mut i: usize = 0;
    while i < coefficients.len()
        invariant
            i <= coefficients@.len(),
            result@ == poly_eval(values(coefficients@).take(i as int), point@),
        decreases coefficients@.len() - i,
    {
        let term = coefficients[i].mul(&point.pow(i as u64));
        proof {
            let c = values(coefficients@).take(i + 1);
            assert(c.drop_last() =~= values(coefficients@).take(i as int));
        }
        result = result.add(&term);
        i = i + 1;
    }
    assert(values(coefficients@).take(coefficients@.len() as int) =~= values(coefficients@));
    result
}

/// Each coefficient times `scalar`.
pub fn scalar_multiplication(scalar: Fe, vec: Vec<Fe>) -> (r: Vec<Fe>)
    ensures
        values(r@) == poly_scale(scalar@, values(vec@)),
{
    let mut vec_result: Vec<Fe> = Vec::new();
    let mut i: usize = 0;
    while i < vec.len()
        invariant
            i <= vec@.len(),
            vec_result@.len() == i,
            forall|k: int| 0 <= k < i ==> (#[trigger] vec_result@[k])@ == fmul(vec@[k]@, scalar@),
        decreases vec@.len() - i,
    {
        vec_result.push(vec[i].mul(&scalar));
        i = i + 1;
    }
    assert(values(vec_result@) =~= poly_scale(scalar@, values(vec@)));
    vec_result
}

/// The coefficient-wise sum.
pub fn poly_addition(vec1: Vec<Fe>, vec2: Vec<Fe>) -> (r: Vec<Fe>)
    ensures
        values(r@) == poly_add(values(vec1@), values(vec2@)),
{
    let ghost a = values(vec1@);
    let ghost b = values(vec2@);
    let (mut vec_result, other) = if vec1.len() >= vec2.len() {
        (vec1, vec2)
    } else {
        (vec2, vec1)
    };
    let ghost long = vec_result@;
    let mut i: usize = 0;
    while i < other.len()
        invariant
            other@.len() <= long.len(),
            vec_result@.len() == long.len(),
            i <= other@.len(),
            forall|k: int| 0 <= k < i ==> (#[trigger] vec_result@[k])@ == fadd(long[k]@, other@[k]@),
            forall|k: int| i <= k < long.len() ==> #[trigger] vec_result@[k] == long[k],
        decreases other@.len() - i,
    {
        let s = vec_result[i].add(&other[i]);
        vec_result.set(i, s);
        i = i + 1;
    }
    proof {
        assert forall|k: int| 0 <= k < vec_result@.len() implies #[trigger] values(vec_result@)[k]
            == poly_add(a, b)[k] by {
            if k < other@.len() {
                assert(a[k] + b[k] == b[k] + a[k]);
                assert(fadd(a[k], b[k]) == fadd(b[k], a[k]));
            }
        }
        assert(values(vec_result@) =~= poly_add(a, b));
    }
    vec_result
}

/// The product of two polynomials; at least one must have a coefficient.
pub fn poly_multiplication(vec1: Vec<Fe>, vec2: Vec<Fe>) -> (r: Vec<Fe>)
    requires
        vec1@.len() + vec2@.len() >= 1,
        vec1@.len() + vec2@.len() <= usize::MAX,
    ensures
        values(r@) == poly_mul(values(vec1@), values(vec2@)),
{
    let ghost a = values(vec1@);
    let ghost b = values(vec2@);
    let len = vec1.len() + vec2.len() - 1;
    let mut vec_result: Vec<Fe> = Vec::new();
    let mut z: usize = 0;
    while z < len
        invariant
            z <= len,
            vec_result@.len() == z,
            forall|k: int| 0 <= k < z ==> (#[trigger] vec_result@[k])@ == 0,
        decreases len - z,
    {
        vec_result.push(Fe::zero());
        z = z + 1;
    }
    let mut i: usize = 0;
    while i < vec1.len()
        invariant
            a == values(vec1@),
            b == values(vec2@),
            len == vec1@.len() + vec2@.len() - 1,
            vec_result@.len() == len,
            i <= vec1@.len(),
            forall|k: int| 0 <= k < len ==> (#[trigger] vec_result@[k])@ == conv_upto(a, b, k, i as int),
        decreases vec1@.len() - i,
    {
        let mut j: usize = 0;
        while j < vec2.len()
            invariant
                a == values(vec1@),
                b == values(vec2@),
                len == vec1@.len() + vec2@.len() - 1,
                vec_result@.len() == len,
                i < vec1@.len(),
                j <= vec2@.len(),
                forall|k: int|
                    0 <= k < len ==> (#[trigger] vec_result@[k])@ == if i <= k < i + j {
                        fadd(conv_upto(a, b, k, i as int), fmul(a[i as int], b[k - i]))
                    } else {
                        conv_upto(a, b, k, i as int)
                    },
            decreases vec2@.len() - j,
        {
            let index = i + j;
            let s = vec_result[index].add(&vec1[i].mul(&vec2[j]));
            vec_result.set(index, s);
            j = j + 1;
        }
        i = i + 1;
    }
    assert(values(vec_result@) =~= poly_mul(a, b));
    vec_result
}

/// The numerator `Π (X - set[j])` over the points `set[j]` that differ from
/// `input`, and its value at `input`.
pub fn lagrange_basis(input: Fe, interpolating_set: &Vec<Fe>) -> (r: (Vec<Fe>, Fe))
    requires
        interpolating_set@.len() + 2 <= usize::MAX,
    ensures
        values(r.0@) == basis_numerator(values(interpolating_set@), input@, interpolating_set@.len()),
        r.1@ == poly_eval(values(r.0@), input@),
{
    let ghost set = values(interpolating_set@);
    let mut numerator: Vec<Fe> = vec![Fe::one()];
    proof {
        assert(values(numerator@) =~= seq![1int]);
    }
    let mut i: usize = 0;
    while i < interpolating_set.len()
        invariant
            set == values(interpolating_set@),
            interpolating_set@.len() + 2 <= usize::MAX,
            i <= interpolating_set@.len(),
            values(numerator@) == basis_numerator(set, input@, i as nat),
            1 <= numerator@.len() <= i + 1,
        decreases interpolating_set@.len() - i,
    {
        if !interpolating_set[i].equals(&input) {
            let neg = Fe::zero().sub(&interpolating_set[i]);
            let current_poly = vec![neg, Fe::one()];
            proof {
                assert(values(current_poly@) =~= seq![fsub(0, set[i as int]), 1int]);
            }
            numerator = poly_multiplication(numerator, current_poly);
            assert(values(numerator@).len() == numerator@.len());
        }
        i = i + 1;
    }
    let denominator = evaluate(&numerator, input);
    (numerator, denominator)
}

/// The interpolation has at least as many coefficients as points.
pub proof fn lemma_lagrange_sum_len(xs: Seq<int>, ys: Seq<int>, m: nat)
    ensures
        lagrange_sum(xs, ys, m).len() >= xs.len(),
    decreases m,
{
    if m > 0 {
        lemma_lagrange_sum_len(xs, ys, (m - 1) as nat);
    }
}

/// The coefficients of the Lagrange interpolation of the points
/// `(xs[i], ys[i])`: the sum over `i` of `ys[i]` over the value of the
/// `i`-th basis numerator at `xs[i]`, times that numerator.
pub fn interpolate(xs: Vec<Fe>, ys: Vec<Fe>) -> (r: Vec<Fe>)
    requires
        xs@.len() == ys@.len(),
        xs@.len() + 2 <= usize::MAX,
    ensures
        values(r@) == lagrange_sum(values(xs@), values(ys@), xs@.len()),
{
    let ghost px = values(xs@);
    let ghost py = values(ys@);
    let mut result_poly: Vec<Fe> = Vec::new();
    let mut z: usize = 0;
    while z < xs.len()
        invariant
            z <= xs@.len(),
            result_poly@.len() == z,
            forall|k: int| 0 <= k < z ==> (#[trigger] result_poly@[k])@ == 0,
        decreases xs@.len() - z,
    {
        result_poly.push(Fe::zero());
        z = z + 1;
    }
    assert(values(result_poly@) =~= lagrange_sum(px, py, 0));
    let mut i: usize = 0;
    while i < xs.len()
        invariant
            px == values(xs@),
            py == values(ys@),
            xs@.len() == ys@.len(),
            xs@.len() + 2 <= usize::MAX,
            i <= xs@.len(),
            values(result_poly@) == lagrange_sum(px, py, i as nat),
        decreases xs@.len() - i,
    {
        let (numerator, denominator) = lagrange_basis(xs[i], &xs);
        let scaled_numerator = scalar_multiplication(ys[i].div(&denominator), numerator);
        result_poly = poly_addition(result_poly, scaled_numerator);
        i = i + 1;
    }
    result_poly
}

/// A polynomial by its coefficients, lowest degree first.
#[derive(Debug)]
pub struct UnivariatePoly {
    pub coeffs: Vec<Fe>,
}

impl UnivariatePoly {
    /// The value at `x`.
    pub fn evaluate(&self, x: Fe) -> (r: Fe)
        ensures
            r@ == poly_eval(values(self.coeffs@), x@),
    {
        evaluate(&self.coeffs, x)
    }

    /// The number of coefficients less one.
    pub fn degree(&self) -> (r: usize)
        requires
            self.coeffs@.len() >= 1,
        ensures
            r == self.coeffs@.len() - 1,
    {
        self.coeffs.len() - 1
    }
}

} // verus!
