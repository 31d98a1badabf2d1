use sumcheck_gkr::field::Fe;
use sumcheck_gkr::shamir::{
    construct_polynomial, generate_shares, generate_shares_at, reconstruct_secret,
};
use sumcheck_gkr::univariate::evaluate;

fn fr(v: u64) -> Fe {
    Fe::from_u64(v)
}

#[test]
fn test_construct_polynomial() {
    let secret = fr(6);
    let threshold = 3;

    let result = construct_polynomial(secret, threshold);

    assert_eq!(result[0], secret);
    assert_eq!(result.len(), threshold as usize);
}

#[test]
fn main_test_evaluate() {
    let poly = vec![fr(6), fr(3), fr(2)];
    let point = fr(2);
    let result = evaluate(&poly, point);
    assert_eq!(result, fr(20));
}

#[test]
fn test_generate_shares() {
    let coeffs = construct_polynomial(fr(6), 3);
    let no_of_shares = 5;
    let result = generate_shares(&coeffs, no_of_shares);
    assert_eq!(result.len(), no_of_shares as usize);

    let unique_shares: std::collections::HashSet<_> = result.iter().map(|s| (s.0.limbs(), s.1.limbs())).collect();
    assert_eq!(unique_shares.len(), result.len());
}

#[test]
fn test_reconstruct_secret() {
    let secret = fr(6);
    let threshold = 3;
    let coeffs = construct_polynomial(secret, threshold);

    let no_of_shares = 5;
    let shares = generate_shares(&coeffs, no_of_shares);

    let shares_to_use = &shares[0..threshold as usize];
    let reconstructed_secret = reconstruct_secret(threshold, &shares_to_use.to_vec());

    assert_eq!(reconstructed_secret, secret);
}

#[test]
fn coefficients_are_small_and_threshold_at_least_one() {
    let poly = construct_polynomial(fr(1), 50);
    assert_eq!(poly.len(), 50);
    assert!(poly[1..].iter().all(|c| c.limbs()[0] < 10 && c.limbs()[1..] == [0, 0, 0]));
    assert_eq!(construct_polynomial(fr(8), 0), vec![fr(8)]);
}

#[test]
fn shares_at_given_points() {
    let poly = vec![fr(6), fr(3), fr(2)];
    let shares = generate_shares_at(&poly, &vec![fr(1), fr(2), fr(10)]);
    assert_eq!(shares, vec![(fr(1), fr(11)), (fr(2), fr(20)), (fr(10), fr(236))]);
}

#[test]
fn shares_use_distinct_points_in_range() {
    let poly = vec![fr(6), fr(3), fr(2)];
    let shares = generate_shares(&poly, 99);
    let mut xs: Vec<u64> = shares.iter().map(|s| s.0.limbs()[0]).collect();
    xs.sort();
    assert_eq!(xs, (1..=99).collect::<Vec<u64>>());
    for (x, y) in &shares {
        assert_eq!(*y, evaluate(&poly, *x));
    }
}

#[test]
fn any_threshold_shares_reconstruct() {
    let secret = fr(123456);
    let poly = vec![secret, fr(17), fr(5), fr(9)];
    let shares = generate_shares_at(&poly, &vec![fr(4), fr(9), fr(2), fr(30), fr(7)]);
    assert_eq!(reconstruct_secret(4, &shares[1..5].to_vec()), secret);
    assert_eq!(reconstruct_secret(4, &shares), secret);
}
