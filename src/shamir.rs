//! Shamir secret sharing: a random polynomial whose constant term is the
//! secret, shares as its values at distinct points, and reconstruction by
//! Lagrange interpolation.

use crate::field::Fe;
use crate::multilinear::values;
use crate::univariate::{evaluate, interpolate, lagrange_sum, poly_eval};
use rand::Rng;
use vstd::prelude::*;

verus! {

/// Relies on `rand::Rng::gen_range` on the thread-local generator: a value
/// in `[low, high)`, which must not be empty.
#[verifier::external_body]
fn random_in(low: u64, high: u64) -> (r: u64)
    requires
        low < high,
    ensures
        low <= r < high,
{
    rand::thread_rng().gen_range(low..high)
}

/// The share points are drawn from `1..=LAST_POINT`.
pub const LAST_POINT: u64 = 99;

/// Coefficients below this bound are drawn for the non-constant terms.
pub const COEFFICIENT_BOUND: u64 = 10;

/// A polynomial of `threshold` coefficients (at least one): the secret,
/// then random coefficients below `COEFFICIENT_BOUND`.
pub fn construct_polynomial(secret: Fe, threshold: isize) -> (r: Vec<Fe>)
    ensures
        r@.len() == if threshold > 1 {
            threshold as int
        } else {
            1
        },
        r@[0] == secret,
        forall|i: int| 1 <= i < r@.len() ==> 0 <= (#[trigger] r@[i])@ < COEFFICIENT_BOUND,
{
    let mut result: Vec<Fe> = vec![secret];
    let mut i: isize = 1;
    while i < threshold
        invariant
            1 <= i,
            i <= threshold || i == 1,
            result@.len() == i,
            result@[0] == secret,
            forall|k: int| 1 <= k < result@.len() ==> 0 <= (#[trigger] result@[k])@ < COEFFICIENT_BOUND,
        decreases threshold - i,
    {
        let random_number = random_in(0, COEFFICIENT_BOUND);
        result.push(Fe::from_u64(random_number));
        i = i + 1;
    }
    result
}

/// The shares of `polynomial` at the given points.
pub fn generate_shares_at(polynomial: &Vec<Fe>, points: &Vec<Fe>) -> (r: Vec<(Fe, Fe)>)
    ensures
        r@.len() == points@.len(),
        forall|i: int|
            0 <= i < r@.len() ==> (#[trigger] r@[i]).0 == points@[i] && r@[i].1@ == poly_eval(
                values(polynomial@),
                points@[i]@,
            ),
{
    let mut shares: Vec<(Fe, Fe)> = Vec::new();
    let mut i: usize = 0;
    while i < points.len()
        invariant
            i <= points@.len(),
            shares@.len() == i,
            forall|k: int|
                0 <= k < i ==> (#[trigger] shares@[k]).0 == points@[k] && shares@[k].1@ == poly_eval(
                    values(polynomial@),
                    points@[k]@,
                ),
        decreases points@.len() - i,
    {
        let x = points[i];
        shares.push((x, evaluate(polynomial, x)));
        i = i + 1;
    }
    shares
}

/// `no_of_shares` distinct random points of `1..=LAST_POINT`.
fn draw_points(no_of_shares: usize) -> (r: Vec<u64>)
    requires
        no_of_shares <= LAST_POINT,
    ensures
        r@.len() == no_of_shares,
        forall|i: int| 0 <= i < r@.len() ==> 1 <= #[trigger] r@[i] <= LAST_POINT,
        forall|i: int, j: int| 0 <= i < j < r@.len() ==> r@[i] != r@[j],
{
    let mut pool: Vec<u64> = Vec::new();
    let mut v: u64 = 1;
    while v <= LAST_POINT
        invariant
            1 <= v <= LAST_POINT + 1,
            pool@.len() == v - 1,
            forall|a: int| 0 <= a < pool@.len() ==> #[trigger] pool@[a] == a + 1,
        decreases LAST_POINT + 1 - v,
    {
        pool.push(v);
        v = v + 1;
    }
    let mut drawn: Vec<u64> = Vec::new();
    while drawn.len() < no_of_shares
        invariant
            no_of_shares <= LAST_POINT,
            pool@.len() + drawn@.len() == LAST_POINT,
            drawn@.len() <= no_of_shares,
            forall|a: int| 0 <= a < pool@.len() ==> 1 <= #[trigger] pool@[a] <= LAST_POINT,
            forall|a: int| 0 <= a < drawn@.len() ==> 1 <= #[trigger] drawn@[a] <= LAST_POINT,
            forall|a: int, b: int| 0 <= a < b < pool@.len() ==> pool@[a] != pool@[b],
            forall|a: int, b: int| 0 <= a < b < drawn@.len() ==> drawn@[a] != drawn@[b],
            forall|a: int, b: int|
                0 <= a < drawn@.len() && 0 <= b < pool@.len() ==> drawn@[a] != pool@[b],
        decreases no_of_shares - drawn@.len(),
    {
        let k = random_in(0, pool.len() as u64) as usize;
        let x = pool[k];
        let last = pool.len() - 1;
        let ghost old_pool = pool@;
        let ghost old_drawn = drawn@;
        let moved = pool[last];
        pool.set(k, moved);
        pool.pop();
        drawn.push(x);
        proof {
            assert forall|a: int| 0 <= a < pool@.len() implies pool@[a] == if a == k {
                old_pool[last as int]
            } else {
                old_pool[a]
            } by {}
            assert forall|a: int, b: int| 0 <= a < b < pool@.len() implies pool@[a] != pool@[b] by {
                if a == k {
                    assert(old_pool[last as int] != old_pool[b]);
                } else if b == k {
                    assert(old_pool[a] != old_pool[last as int]);
                }
            }
            assert forall|a: int, b: int|
                0 <= a < drawn@.len() && 0 <= b < pool@.len() implies drawn@[a] != pool@[b] by {
                if a == old_drawn.len() {
                    if b == k {
                        assert(old_pool[k as int] != old_pool[last as int]);
                    } else {
                        assert(old_pool[k as int] != old_pool[b]);
                    }
                } else {
                    assert(drawn@[a] == old_drawn[a]);
                    if b == k {
                        assert(old_drawn[a] != old_pool[last as int]);
                    }
                }
            }
            assert forall|a: int, b: int| 0 <= a < b < drawn@.len() implies drawn@[a] != drawn@[b] by {
                if b == old_drawn.len() {
                    assert(old_drawn[a] != old_pool[k as int]);
                }
            }
        }
    }
    drawn
}

/// `no_of_shares` shares of `polynomial` at distinct random points of
/// `1..=LAST_POINT`.
pub fn generate_shares(polynomial: &Vec<Fe>, no_of_shares: isize) -> (r: Vec<(Fe, Fe)>)
    requires
        0 <= no_of_shares <= LAST_POINT,
    ensures
        r@.len() == no_of_shares,
        forall|i: int|
            0 <= i < r@.len() ==> 1 <= (#[trigger] r@[i]).0@ <= LAST_POINT && r@[i].1@ == poly_eval(
                values(polynomial@),
                r@[i].0@,
            ),
        forall|i: int, j: int| 0 <= i < j < r@.len() ==> r@[i].0@ != r@[j].0@,
{
    let drawn = draw_points(no_of_shares as usize);
    let mut points: Vec<Fe> = Vec::new();
    let mut i: usize = 0;
    while i < drawn.len()
        invariant
            i <= drawn@.len(),
            points@.len() == i,
            forall|k: int| 0 <= k < i ==> (#[trigger] points@[k])@ == drawn@[k],
        decreases drawn@.len() - i,
    {
        points.push(Fe::from_u64(drawn[i]));
        i = i + 1;
    }
    let shares = generate_shares_at(polynomial, &points);
    assert forall|i: int, j: int| 0 <= i < j < shares@.len() implies shares@[i].0@ != shares@[j].0@ by {
        assert(shares@[i].0 == points@[i]);
        assert(shares@[j].0 == points@[j]);
    }
    shares
}

/// The first coordinates of the shares.
pub open spec fn share_points(shares: Seq<(Fe, Fe)>) -> Seq<int> {
    shares.map_values(|s: (Fe, Fe)| s.0@)
}

/// The second coordinates of the shares.
pub open spec fn share_values(shares: Seq<(Fe, Fe)>) -> Seq<int> {
    shares.map_values(|s: (Fe, Fe)| s.1@)
}

/// The constant term of the interpolation of the shares; at least
/// `threshold` shares, and at least one, are needed.
pub fn reconstruct_secret(threshold: isize, shares: &Vec<(Fe, Fe)>) -> (r: Fe)
    requires
        shares@.len() >= threshold,
        shares@.len() >= 1,
        shares@.len() + 2 <= usize::MAX,
    ensures
        r@ == lagrange_sum(share_points(shares@), share_values(shares@), shares@.len())[0],
{
    let mut xs: Vec<Fe> = Vec::new();
    let mut ys: Vec<Fe> = Vec::new();
    let mut i: usize = 0;
    while i < shares.len()
        invariant
            i <= shares@.len(),
            xs@.len() == i,
            ys@.len() == i,
            forall|k: int| 0 <= k < i ==> #[trigger] xs@[k] == shares@[k].0,
            forall|k: int| 0 <= k < i ==> #[trigger] ys@[k] == shares@[k].1,
        decreases shares@.len() - i,
    {
        xs.push(shares[i].0);
        ys.push(shares[i].1);
        i = i + 1;
    }
    assert(values(xs@) =~= share_points(shares@));
    assert(values(ys@) =~= share_values(shares@));
    let poly = interpolate(xs, ys);
    proof {
        crate::univariate::lemma_lagrange_sum_len(share_points(shares@), share_values(shares@), shares@.len());
        assert(values(poly@).len() == poly@.len());
    }
    poly[0]
}

} // verus!
