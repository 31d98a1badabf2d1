use sumcheck_gkr::field::Fe;
use sumcheck_gkr::univariate::{
    evaluate, interpolate, lagrange_basis, poly_addition, poly_multiplication,
    scalar_multiplication, UnivariatePoly,
};

fn fr(v: i64) -> Fe {
    Fe::from_i64(v)
}

#[test]
fn test_scalar_multiplication() {
    let vec = vec![fr(1), fr(2), fr(3)];
    let result = scalar_multiplication(fr(2), vec);
    assert_eq!(result, vec![fr(2), fr(4), fr(6)]);
}

#[test]
fn test_poly_multiplication() {
    let vec1 = vec![fr(2), fr(3)];
    let vec2 = vec![fr(4), fr(6)];
    let result = poly_multiplication(vec1, vec2);
    assert_eq!(result, vec![fr(8), fr(24), fr(18)]);
}

#[test]
fn test_poly_addition() {
    let vec1 = vec![fr(2), fr(3)];
    let vec2 = vec![fr(4), fr(6)];
    let result = poly_addition(vec1, vec2);
    assert_eq!(result, vec![fr(6), fr(9)]);
}

#[test]
fn test_lagrange_basis() {
    let xs = vec![fr(1), fr(2), fr(3)];
    let result = lagrange_basis(fr(2), &xs);
    assert_eq!(result.0, vec![fr(3), fr(-4), fr(1)]);
}

#[test]
fn lagrange_denominator_is_numerator_at_input() {
    let xs = vec![fr(1), fr(2), fr(3)];
    // (2 - 1) * (2 - 3) = -1
    assert_eq!(lagrange_basis(fr(2), &xs).1, fr(-1));
    // a set holding only the input gives the constant one
    let single = vec![fr(5)];
    assert_eq!(lagrange_basis(fr(5), &single), (vec![fr(1)], fr(1)));
}

#[test]
fn addition_of_different_lengths_keeps_the_longer_tail() {
    assert_eq!(poly_addition(vec![fr(1)], vec![fr(2), fr(3), fr(4)]), vec![fr(3), fr(3), fr(4)]);
    assert_eq!(poly_addition(vec![fr(2), fr(3), fr(4)], vec![fr(1)]), vec![fr(3), fr(3), fr(4)]);
    assert_eq!(poly_addition(vec![], vec![]), vec![]);
}

#[test]
fn multiplication_by_an_empty_operand() {
    assert_eq!(poly_multiplication(vec![fr(2), fr(3)], vec![]), vec![fr(0)]);
    assert_eq!(poly_multiplication(vec![fr(7)], vec![fr(-1), fr(1)]), vec![fr(-7), fr(7)]);
}

#[test]
fn evaluation_of_coefficients() {
    // 6 + 3x + 2x^2 at 2
    assert_eq!(evaluate(&vec![fr(6), fr(3), fr(2)], fr(2)), fr(20));
    assert_eq!(evaluate(&vec![], fr(2)), fr(0));
    let poly = UnivariatePoly { coeffs: vec![fr(1), fr(0), fr(0), fr(1)] };
    assert_eq!(poly.evaluate(fr(3)), fr(28));
    assert_eq!(poly.degree(), 3);
}

#[test]
fn interpolation_passes_through_the_points() {
    // 6 + 3x + 2x^2 through x = 1, 3, 4
    let xs = vec![fr(1), fr(3), fr(4)];
    let ys = vec![fr(11), fr(33), fr(50)];
    let coeffs = interpolate(xs, ys);
    assert_eq!(coeffs, vec![fr(6), fr(3), fr(2)]);
}
