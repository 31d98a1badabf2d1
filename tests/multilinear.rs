use sumcheck_gkr::field::Fe;
use sumcheck_gkr::multilinear::{interpolate, MultilinearPoly};

fn fr(v: u64) -> Fe {
    Fe::from_u64(v)
}

fn sample() -> Vec<Fe> {
    vec![fr(0), fr(0), fr(0), fr(3), fr(0), fr(0), fr(2), fr(5)]
}

#[test]
fn test_create_paired_arrays() {
    let poly = MultilinearPoly { n_vars: 3, evals: sample() };

    let (vec_zero, vec_one) = poly.create_paired_arrays(1);

    assert_eq!(vec_zero, vec![fr(0), fr(0), fr(0), fr(0)]);
    assert_eq!(vec_one, vec![fr(0), fr(3), fr(2), fr(5)]);
}

#[test]
fn test_partial_evaluate() {
    let poly = MultilinearPoly::new(3, sample());

    let result = poly.partial_evaluate((0, fr(3)));

    let expected = vec![fr(0), fr(0), fr(6), fr(9)];
    assert_eq!(result.n_vars, 2);
    assert_eq!(result.evals, expected);
}

#[test]
fn test_evaluate() {
    let multipoly = MultilinearPoly::new(3, sample());
    let points = vec![fr(3), fr(2), fr(1)];
    let result = multipoly.evaluate(points);
    assert_eq!(result, fr(18));
}

#[test]
fn fixing_to_zero_and_one_gives_the_halves() {
    let poly = MultilinearPoly::new(3, sample());
    for v in 0..3 {
        let (y0, y1) = poly.create_paired_arrays(v);
        assert_eq!(poly.partial_evaluate((v, fr(0))).evals, y0);
        assert_eq!(poly.partial_evaluate((v, fr(1))).evals, y1);
    }
}

#[test]
fn paired_arrays_on_last_variable() {
    let poly = MultilinearPoly::new(3, sample());
    let (y0, y1) = poly.create_paired_arrays(2);
    assert_eq!(y0, vec![fr(0), fr(0), fr(0), fr(2)]);
    assert_eq!(y1, vec![fr(0), fr(3), fr(0), fr(5)]);
}

/// The multilinear extension summed over the hypercube, entry by entry.
fn brute_force(table: &[Fe], point: &[Fe]) -> Fe {
    let n = point.len();
    let mut total = Fe::zero();
    for (b, entry) in table.iter().enumerate() {
        let mut weight = Fe::one();
        for (i, x) in point.iter().enumerate() {
            let bit = (b >> (n - 1 - i)) & 1;
            let factor = if bit == 1 { *x } else { Fe::one().sub(x) };
            weight = weight.mul(&factor);
        }
        total = total.add(&entry.mul(&weight));
    }
    total
}

#[test]
fn evaluate_matches_brute_force_extension() {
    let tables: Vec<Vec<Fe>> = vec![
        vec![fr(7)],
        vec![fr(4), fr(11)],
        vec![fr(1), fr(2), fr(3), fr(4)],
        sample(),
        (0..16).map(|k| fr(k * k + 3)).collect(),
    ];
    let points = [fr(3), fr(8), fr(1), fr(5)];
    for table in tables {
        let n = table.len().trailing_zeros() as usize;
        let poly = MultilinearPoly::new(n, table.clone());
        let point: Vec<Fe> = points[..n].to_vec();
        assert_eq!(poly.evaluate(point.clone()), brute_force(&table, &point));
    }
}

#[test]
fn evaluate_with_no_variables_returns_the_entry() {
    let poly = MultilinearPoly::new(0, vec![fr(42)]);
    assert_eq!(poly.evaluate(vec![]), fr(42));
}

#[test]
fn interpolate_is_affine() {
    // 2 + 5 * (9 - 2) = 37
    assert_eq!(interpolate(&fr(2), &fr(9), &fr(5)), fr(37));
    // 9 + 2 * (2 - 9) = -5
    assert_eq!(interpolate(&fr(9), &fr(2), &fr(2)), Fe::from_i64(-5));
}
