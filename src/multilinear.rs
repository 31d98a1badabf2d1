//! Multilinear polynomials given by their evaluations on the Boolean hypercube.
//!
//! Entry `k` of a table over `n` variables is the value at the point whose
//! coordinates are the bits of `k`, the most significant bit being variable 0.

use crate::field::{fadd, fmul, fsub, modulus, Fe};
use vstd::arithmetic::div_mod::{
    lemma_add_mod_noop_right, lemma_basic_div, lemma_fundamental_div_mod, lemma_mod_bound,
    lemma_mod_multiples_vanish, lemma_mul_mod_noop_right, lemma_small_mod,
};
use vstd::arithmetic::power2::{lemma_pow2_adds, lemma_pow2_pos, lemma_pow2_unfold, pow2};
use vstd::prelude::*;

verus! {

/// The values of a sequence of field elements.
pub open spec fn values(s: Seq<Fe>) -> Seq<int> {
    s.map_values(|e: Fe| e@)
}

/// The affine interpolation `y0 + r * (y1 - y0)`.
pub open spec fn interp(y0: int, y1: int, r: int) -> int {
    fadd(y0, fmul(r, fsub(y1, y0)))
}

/// `interp` is the integer affine combination, reduced.
pub proof fn lemma_interp_int(x: int, y: int, c: int)
    ensures
        interp(x, y, c) == (x + c * (y - x)) % modulus(),
{
    let p = modulus();
    lemma_mul_mod_noop_right(c, y - x, p);
    lemma_add_mod_noop_right(x, c * (y - x), p);
}

/// `interp` only depends on the residues of its endpoints.
pub proof fn lemma_interp_congruent(x: int, y: int, c: int)
    ensures
        interp(x % modulus(), y % modulus(), c) == interp(x, y, c),
{
    let p = modulus();
    lemma_interp_int(x, y, c);
    lemma_interp_int(x % p, y % p, c);
    lemma_fundamental_div_mod(x, p);
    lemma_fundamental_div_mod(y, p);
    let qx = x / p;
    let qy = y / p;
    let k = qx + c * (qy - qx);
    assert(x + c * (y - x) == p * k + (x % p + c * (y % p - x % p))) by (nonlinear_arith)
        requires
            x == p * qx + x % p,
            y == p * qy + y % p,
            k == qx + c * (qy - qx),
    ;
    lemma_mod_multiples_vanish(k, x % p + c * (y % p - x % p), p);
}

/// The index obtained by inserting bit `b` at position `bit` of `k`.
pub open spec fn insert_bit(k: int, bit: nat, b: int) -> int {
    (k / (pow2(bit) as int)) * pow2(bit + 1) + b * pow2(bit) + k % (pow2(bit) as int)
}

/// The entries of `t` whose index has bit `b` at position `bit`, in index order.
pub open spec fn half_table(t: Seq<int>, bit: nat, b: int) -> Seq<int> {
    Seq::new(t.len() / 2, |k: int| t[insert_bit(k, bit, b)])
}

/// The table obtained by fixing the variable at bit position `bit` to `r`.
pub open spec fn partial_table(t: Seq<int>, bit: nat, r: int) -> Seq<int> {
    Seq::new(
        t.len() / 2,
        |k: int| interp(half_table(t, bit, 0)[k], half_table(t, bit, 1)[k], r),
    )
}

/// The value at `x` of the multilinear extension of `t`, a table over
/// `x.len()` variables: variable 0 is fixed to `x[0]`, then the first
/// remaining variable to `x[1]`, and so on.
pub open spec fn mle_eval(t: Seq<int>, x: Seq<int>) -> int
    decreases x.len(),
{
    if x.len() == 0 {
        t[0]
    } else {
        mle_eval(partial_table(t, (x.len() - 1) as nat, x[0]), x.drop_first())
    }
}

/// Both indices that pair up entry `k` of the two halves lie in the table.
pub proof fn lemma_insert_bit_bounds(k: int, bit: nat, n: nat)
    requires
        bit < n,
        0 <= k < pow2((n - 1) as nat),
    ensures
        0 <= insert_bit(k, bit, 0),
        insert_bit(k, bit, 1) == insert_bit(k, bit, 0) + pow2(bit),
        insert_bit(k, bit, 1) < pow2(n),
        pow2(n) == 2 * pow2((n - 1) as nat),
{
    let pw = pow2(bit) as int;
    let m = pow2((n - 1 - bit) as nat) as int;
    lemma_pow2_pos(bit);
    lemma_pow2_pos((n - 1 - bit) as nat);
    lemma_pow2_unfold(n);
    lemma_pow2_unfold(bit + 1);
    lemma_pow2_adds(bit, (n - 1 - bit) as nat);
    assert(pow2((n - 1) as nat) == pw * m);
    let q = k / pw;
    let rem = k % pw;
    lemma_fundamental_div_mod(k, pw);
    lemma_mod_bound(k, pw);
    assert(0 <= q < m) by (nonlinear_arith)
        requires
            k == pw * q + rem,
            0 <= rem < pw,
            0 <= k < pw * m,
            pw > 0,
    ;
    assert(q * (2 * pw) + pw + rem < 2 * (pw * m)) by (nonlinear_arith)
        requires
            0 <= q < m,
            0 <= rem < pw,
    ;
    assert(insert_bit(k, bit, 1) == q * (2 * pw) + pw + rem);
    assert(0 <= q * (2 * pw)) by (nonlinear_arith)
        requires
            0 <= q,
            0 < pw,
    ;
}

/// Fixing variable 0 splits the table into its first and second half.
pub proof fn lemma_halves_of_first_variable(t: Seq<int>, n: nat)
    requires
        n >= 1,
        t.len() == pow2(n),
    ensures
        pow2(n) == 2 * pow2((n - 1) as nat),
        half_table(t, (n - 1) as nat, 0) == t.take(pow2((n - 1) as nat) as int),
        half_table(t, (n - 1) as nat, 1) == t.skip(pow2((n - 1) as nat) as int),
{
    let h = pow2((n - 1) as nat) as int;
    lemma_pow2_unfold(n);
    lemma_pow2_pos((n - 1) as nat);
    assert forall|k: int| 0 <= k < h implies #[trigger] insert_bit(k, (n - 1) as nat, 0) == k by {
        lemma_basic_div(k, h);
        lemma_small_mod(k as nat, h as nat);
    }
    assert forall|k: int| 0 <= k < h implies #[trigger] insert_bit(k, (n - 1) as nat, 1) == k + h by {
        lemma_basic_div(k, h);
        lemma_small_mod(k as nat, h as nat);
    }
    assert(half_table(t, (n - 1) as nat, 0) =~= t.take(h));
    assert(half_table(t, (n - 1) as nat, 1) =~= t.skip(h));
}

/// A power of two that fits in a `usize` has an exponent below 64.
pub proof fn lemma_pow2_exponent_bound(n: nat)
    requires
        pow2(n) <= usize::MAX,
    ensures
        n < 64,
{
    vstd::arithmetic::power2::lemma2_to64();
    if n > 64 {
        vstd::arithmetic::power2::lemma_pow2_strictly_increases(64, n);
    }
}

spec fn bit_of(n: nat, v: usize) -> nat {
    (n - 1 - v) as nat
}

/// A table of canonical field values over `n` variables.
pub open spec fn valid_table(t: Seq<int>, n: nat) -> bool {
    &&& t.len() == pow2(n)
    &&& forall|k: int| 0 <= k < t.len() ==> 0 <= #[trigger] t[k] < modulus()
}

/// Fixing the variable at bit position `bit` to 0 gives back the entries
/// whose bit is 0, and fixing it to 1 gives back those whose bit is 1.
pub proof fn lemma_partial_endpoints(t: Seq<int>, n: nat, bit: nat)
    requires
        valid_table(t, n),
        bit < n,
    ensures
        partial_table(t, bit, 0) == half_table(t, bit, 0),
        partial_table(t, bit, 1) == half_table(t, bit, 1),
{
    let p = modulus();
    lemma_pow2_unfold(n);
    assert forall|k: int| 0 <= k < t.len() / 2 implies #[trigger] partial_table(t, bit, 0)[k]
        == half_table(t, bit, 0)[k] && partial_table(t, bit, 1)[k] == half_table(t, bit, 1)[k] by {
        lemma_insert_bit_bounds(k, bit, n);
        let y0 = t[insert_bit(k, bit, 0)];
        let y1 = t[insert_bit(k, bit, 1)];
        lemma_interp_int(y0, y1, 0);
        lemma_interp_int(y0, y1, 1);
        assert(0 * (y1 - y0) == 0);
        assert(1 * (y1 - y0) == y1 - y0);
        lemma_small_mod(y0 as nat, p as nat);
        lemma_small_mod(y1 as nat, p as nat);
    }
    assert(partial_table(t, bit, 0) =~= half_table(t, bit, 0));
    assert(partial_table(t, bit, 1) =~= half_table(t, bit, 1));
}

/// The weight of hypercube point `b` at `x`: the product over the variables
/// `i` of `x[i]` where the bit of `b` for variable `i` is 1, and of
/// `1 - x[i]` where it is 0 (variable 0 is the most significant bit).
pub open spec fn eq_weight(b: int, x: Seq<int>) -> int
    decreases x.len(),
{
    if x.len() == 0 {
        1
    } else {
        let h = pow2((x.len() - 1) as nat) as int;
        (if b >= h {
            x[0]
        } else {
            1 - x[0]
        }) * eq_weight(b % h, x.drop_first())
    }
}

/// `Σ t[b] * eq_weight(b, x)` over the points `b < m`, over the integers.
pub open spec fn weighted_sum(t: Seq<int>, x: Seq<int>, m: int) -> int
    decreases m,
{
    if m <= 0 {
        0
    } else {
        weighted_sum(t, x, m - 1) + t[m - 1] * eq_weight(m - 1, x)
    }
}

/// The multilinear extension of `t` at `x` by its defining sum over the
/// hypercube, reduced into the field.
pub open spec fn mle_by_sum(t: Seq<int>, x: Seq<int>) -> int {
    weighted_sum(t, x, t.len() as int) % modulus()
}

/// Points of the lower half weigh `1 - x[0]` times their weight in the
/// remaining variables; points of the upper half weigh `x[0]` times it.
proof fn lemma_eq_weight_halves(b: int, x: Seq<int>)
    requires
        x.len() >= 1,
        0 <= b < 2 * pow2((x.len() - 1) as nat),
    ensures
        b < pow2((x.len() - 1) as nat) ==> eq_weight(b, x) == (1 - x[0]) * eq_weight(
            b,
            x.drop_first(),
        ),
        b >= pow2((x.len() - 1) as nat) ==> eq_weight(b, x) == x[0] * eq_weight(
            b - pow2((x.len() - 1) as nat),
            x.drop_first(),
        ),
{
    let h = pow2((x.len() - 1) as nat) as int;
    lemma_pow2_pos((x.len() - 1) as nat);
    if b < h {
        lemma_small_mod(b as nat, h as nat);
    } else {
        vstd::arithmetic::div_mod::lemma_fundamental_div_mod_converse(b, h, 1, b - h);
    }
}

/// The sum over the lower half, and over the whole table.
proof fn lemma_weighted_sum_split(t: Seq<int>, x: Seq<int>, m: int)
    requires
        x.len() >= 1,
        t.len() == 2 * pow2((x.len() - 1) as nat),
        0 <= m <= pow2((x.len() - 1) as nat),
    ensures
        weighted_sum(t, x, m) == (1 - x[0]) * weighted_sum(
            t.take(pow2((x.len() - 1) as nat) as int),
            x.drop_first(),
            m,
        ),
        weighted_sum(t, x, pow2((x.len() - 1) as nat) + m) == weighted_sum(
            t,
            x,
            pow2((x.len() - 1) as nat) as int,
        ) + x[0] * weighted_sum(t.skip(pow2((x.len() - 1) as nat) as int), x.drop_first(), m),
    decreases m,
{
    let h = pow2((x.len() - 1) as nat) as int;
    let c = x[0];
    let xr = x.drop_first();
    let lo = t.take(h);
    let hi = t.skip(h);
    if m > 0 {
        lemma_weighted_sum_split(t, x, m - 1);
        lemma_eq_weight_halves(m - 1, x);
        lemma_eq_weight_halves(h + m - 1, x);
        let wl = weighted_sum(lo, xr, m - 1);
        let wh = weighted_sum(hi, xr, m - 1);
        let el = eq_weight(m - 1, xr);
        assert(lo[m - 1] == t[m - 1]);
        assert(hi[m - 1] == t[h + m - 1]);
        assert((1 - c) * wl + t[m - 1] * ((1 - c) * el) == (1 - c) * (wl + t[m - 1] * el))
            by (nonlinear_arith);
        assert(t[h + m - 1] * (c * el) == c * (t[h + m - 1] * el)) by (nonlinear_arith);
        assert(c * wh + c * (t[h + m - 1] * el) == c * (wh + t[h + m - 1] * el))
            by (nonlinear_arith);
    }
}

/// The sum is linear in the table.
proof fn lemma_weighted_sum_linear(lo: Seq<int>, hi: Seq<int>, u: Seq<int>, x: Seq<int>, c: int, m: int)
    requires
        0 <= m <= lo.len(),
        lo.len() == hi.len(),
        u.len() == lo.len(),
        forall|k: int| 0 <= k < u.len() ==> #[trigger] u[k] == (1 - c) * lo[k] + c * hi[k],
    ensures
        weighted_sum(u, x, m) == (1 - c) * weighted_sum(lo, x, m) + c * weighted_sum(hi, x, m),
    decreases m,
{
    if m > 0 {
        lemma_weighted_sum_linear(lo, hi, u, x, c, m - 1);
        let e = eq_weight(m - 1, x);
        let wl = weighted_sum(lo, x, m - 1);
        let wh = weighted_sum(hi, x, m - 1);
        let a = lo[m - 1];
        let b = hi[m - 1];
        assert(u[m - 1] == (1 - c) * a + c * b);
        assert((1 - c) * wl + c * wh + ((1 - c) * a + c * b) * e == (1 - c) * (wl + a * e) + c * (
        wh + b * e)) by (nonlinear_arith);
    }
}

/// Tables that agree modulo the field's order have sums that agree.
proof fn lemma_weighted_sum_congruent(s: Seq<int>, u: Seq<int>, x: Seq<int>, m: int)
    requires
        0 <= m <= s.len(),
        u.len() == s.len(),
        forall|k: int| 0 <= k < s.len() ==> #[trigger] s[k] % modulus() == u[k] % modulus(),
    ensures
        weighted_sum(s, x, m) % modulus() == weighted_sum(u, x, m) % modulus(),
    decreases m,
{
    let p = modulus();
    if m > 0 {
        lemma_weighted_sum_congruent(s, u, x, m - 1);
        let e = eq_weight(m - 1, x);
        let ws = weighted_sum(s, x, m - 1);
        let wu = weighted_sum(u, x, m - 1);
        vstd::arithmetic::div_mod::lemma_mul_mod_noop_left(s[m - 1], e, p);
        vstd::arithmetic::div_mod::lemma_mul_mod_noop_left(u[m - 1], e, p);
        assert(s[m - 1] % p == u[m - 1] % p);
        vstd::arithmetic::div_mod::lemma_add_mod_noop(ws, s[m - 1] * e, p);
        vstd::arithmetic::div_mod::lemma_add_mod_noop(wu, u[m - 1] * e, p);
    }
}

/// Evaluating by fixing one variable after another gives the multilinear
/// extension's defining sum over the hypercube.
pub proof fn lemma_mle_eval_is_sum(t: Seq<int>, x: Seq<int>)
    requires
        valid_table(t, x.len()),
    ensures
        mle_eval(t, x) == mle_by_sum(t, x),
    decreases x.len(),
{
    let p = modulus();
    if x.len() == 0 {
        vstd::arithmetic::power2::lemma2_to64();
        lemma_small_mod(t[0] as nat, p as nat);
        assert(weighted_sum(t, x, 0) == 0);
        assert(t[0] * 1 == t[0]);
    } else {
        let n = x.len();
        let h = pow2((n - 1) as nat) as int;
        let c = x[0];
        let xr = x.drop_first();
        let lo = t.take(h);
        let hi = t.skip(h);
        lemma_halves_of_first_variable(t, n);
        lemma_pow2_pos((n - 1) as nat);
        let next = partial_table(t, (n - 1) as nat, c);
        assert forall|k: int| 0 <= k < next.len() implies 0 <= #[trigger] next[k] < p && next[k]
            == interp(lo[k], hi[k], c) by {
            lemma_mod_bound(lo[k] + fmul(c, fsub(hi[k], lo[k])), p);
        }
        lemma_mle_eval_is_sum(next, xr);
        let u = Seq::new(h as nat, |k: int| (1 - c) * lo[k] + c * hi[k]);
        assert forall|k: int| 0 <= k < next.len() implies #[trigger] next[k] % p == u[k] % p by {
            lemma_interp_int(lo[k], hi[k], c);
            assert(lo[k] + c * (hi[k] - lo[k]) == (1 - c) * lo[k] + c * hi[k]) by (nonlinear_arith);
            vstd::arithmetic::div_mod::lemma_mod_twice(u[k], p);
        }
        lemma_weighted_sum_congruent(next, u, xr, h);
        lemma_weighted_sum_linear(lo, hi, u, xr, c, h);
        lemma_weighted_sum_split(t, x, h);
        assert(h + h == t.len());
    }
}

/// `2^e` as a machine integer.
pub fn pow2_usize(e: u32) -> (r: usize)
    requires
        pow2(e as nat) <= usize::MAX,
    ensures
        r == pow2(e as nat),
{
    let mut r: usize = 1;
    let mut i: u32 = 0;
    proof {
        vstd::arithmetic::power2::lemma2_to64();
    }
    while i < e
        invariant
            i <= e,
            r == pow2(i as nat),
            pow2(e as nat) <= usize::MAX,
        decreases e - i,
    {
        proof {
            lemma_pow2_unfold((i + 1) as nat);
            if i + 1 < e {
                vstd::arithmetic::power2::lemma_pow2_strictly_increases((i + 1) as nat, e as nat);
            }
        }
        r = r * 2;
        i = i + 1;
    }
    r
}

/// `y0 + r * (y1 - y0)`.
pub fn interpolate(y0: &Fe, y1: &Fe, r: &Fe) -> (v: Fe)
    ensures
        v@ == interp(y0@, y1@, r@),
{
    y0.add(&r.mul(&y1.sub(y0)))
}

/// A multilinear polynomial over `n_vars` variables, given by its `2^n_vars`
/// evaluations.
#[derive(Clone, Debug)]
pub struct MultilinearPoly {
    pub evals: Vec<Fe>,
    pub n_vars: usize,
}

impl MultilinearPoly {
    /// The table has one entry for each point of the hypercube.
    pub open spec fn wf(&self) -> bool {
        self.evals@.len() == pow2(self.n_vars as nat)
    }

    /// The evaluation table's values.
    pub open spec fn table(&self) -> Seq<int> {
        values(self.evals@)
    }

    pub fn new(n_vars: usize, evaluations: Vec<Fe>) -> (r: MultilinearPoly)
        requires
            evaluations@.len() == pow2(n_vars as nat),
        ensures
            r.wf(),
            r.n_vars == n_vars,
            r.evals@ == evaluations@,
    {
        MultilinearPoly { evals: evaluations, n_vars }
    }

    /// The value at `points`, one coordinate per variable.
    pub fn evaluate(&self, points: Vec<Fe>) -> (r: Fe)
        requires
            self.wf(),
            points@.len() == self.n_vars,
        ensures
            r@ == mle_eval(self.table(), values(points@)),
    {
        let mut poly = MultilinearPoly { evals: self.evals.clone(), n_vars: self.n_vars };
        let mut i: usize = 0;
        assert(values(points@).skip(0) =~= values(points@));
        while i < points.len()
            invariant
                0 <= i <= points@.len(),
                points@.len() == self.n_vars,
                poly.wf(),
                poly.n_vars == self.n_vars - i,
                mle_eval(poly.table(), values(points@).skip(i as int)) == mle_eval(
                    self.table(),
                    values(points@),
                ),
            decreases points@.len() - i,
        {
            let next = poly.partial_evaluate((0, points[i]));
            proof {
                let x = values(points@).skip(i as int);
                assert(x.drop_first() =~= values(points@).skip(i + 1));
            }
            poly = next;
            i = i + 1;
        }
        proof {
            vstd::arithmetic::power2::lemma2_to64();
        }
        poly.evals[0]
    }

    /// Fixes variable `index_value.0` to `index_value.1`.
    pub fn partial_evaluate(&self, index_value: (usize, Fe)) -> (r: MultilinearPoly)
        requires
            self.wf(),
            index_value.0 < self.n_vars,
        ensures
            r.wf(),
            r.n_vars == self.n_vars - 1,
            r.table() == partial_table(
                self.table(),
                (self.n_vars - 1 - index_value.0) as nat,
                index_value.1@,
            ),
    {
        let (vec1, vec2) = self.create_paired_arrays(index_value.0);
        let ghost bit = (self.n_vars - 1 - index_value.0) as nat;
        assert(values(vec1@).len() == vec1@.len());
        assert(values(vec2@).len() == vec2@.len());
        let mut result_vec: Vec<Fe> = Vec::new();
        let mut index: usize = 0;
        while index < vec1.len()
            invariant
                index <= vec1@.len(),
                vec1@.len() == vec2@.len(),
                values(vec1@) == half_table(self.table(), bit, 0),
                values(vec2@) == half_table(self.table(), bit, 1),
                result_vec@.len() == index,
                forall|k: int|
                    0 <= k < index ==> #[trigger] result_vec@[k]@ == interp(
                        vec1@[k]@,
                        vec2@[k]@,
                        index_value.1@,
                    ),
            decreases vec1@.len() - index,
        {
            result_vec.push(interpolate(&vec1[index], &vec2[index], &index_value.1));
            index = index + 1;
        }
        proof {
            lemma_pow2_unfold(self.n_vars as nat);
            assert forall|k: int| 0 <= k < result_vec@.len() implies #[trigger] values(result_vec@)[k]
                == partial_table(self.table(), bit, index_value.1@)[k] by {
                assert(values(vec1@)[k] == vec1@[k]@);
                assert(values(vec2@)[k] == vec2@[k]@);
            }
            assert(values(result_vec@) =~= partial_table(self.table(), bit, index_value.1@));
        }
        MultilinearPoly { evals: result_vec, n_vars: self.n_vars - 1 }
    }

    /// The entries whose bit for variable `remove_var` is 0, and those where
    /// it is 1, each in index order.
    pub fn create_paired_arrays(&self, remove_var: usize) -> (r: (Vec<Fe>, Vec<Fe>))
        requires
            self.wf(),
            remove_var < self.n_vars,
        ensures
            values(r.0@) == half_table(self.table(), (self.n_vars - 1 - remove_var) as nat, 0),
            values(r.1@) == half_table(self.table(), (self.n_vars - 1 - remove_var) as nat, 1),
    {
        let ghost n = self.n_vars as nat;
        let len = self.evals.len();
        proof {
            lemma_pow2_exponent_bound(n);
            vstd::arithmetic::power2::lemma_pow2_strictly_increases(bit_of(n, remove_var), n);
        }
        let bit = (self.n_vars - 1 - remove_var) as u32;
        proof {
            lemma_pow2_pos(bit as nat);
            lemma_pow2_unfold((bit + 1) as nat);
            if bit + 1 < n {
                vstd::arithmetic::power2::lemma_pow2_strictly_increases((bit + 1) as nat, n);
            }
            lemma_pow2_unfold(n);
            vstd::arithmetic::power2::lemma_pow2_strictly_increases(bit as nat, n);
        }
        let pw = pow2_usize(bit);
        let half = len / 2;
        let two_pw = 2 * pw;
        let mut vec_zero: Vec<Fe> = Vec::new();
        let mut vec_one: Vec<Fe> = Vec::new();
        let mut k: usize = 0;
        while k < half
            invariant
                self.wf(),
                n == self.n_vars,
                bit == n - 1 - remove_var,
                pw == pow2(bit as nat),
                pw > 0,
                len == self.evals@.len(),
                two_pw == 2 * pw,
                two_pw == pow2((bit + 1) as nat),
                bit < n,
                half == pow2((n - 1) as nat),
                half == self.evals@.len() / 2,
                k <= half,
                vec_zero@.len() == k,
                vec_one@.len() == k,
                forall|j: int|
                    0 <= j < k ==> #[trigger] vec_zero@[j]@ == self.table()[insert_bit(
                        j,
                        bit as nat,
                        0,
                    )],
                forall|j: int|
                    0 <= j < k ==> #[trigger] vec_one@[j]@ == self.table()[insert_bit(
                        j,
                        bit as nat,
                        1,
                    )],
            decreases half - k,
        {
            proof {
                lemma_insert_bit_bounds(k as int, bit as nat, n);
                lemma_pow2_unfold((bit + 1) as nat);
            }
            let q = k / pw;
            proof {
                assert(0 <= k % pw);
                assert(insert_bit(k as int, bit as nat, 0) == q * two_pw + k % pw);
                assert(insert_bit(k as int, bit as nat, 1) < len);
                assert(q * two_pw + k % pw < len);
            }
            let idx0 = q * two_pw + k % pw;
            vec_zero.push(self.evals[idx0]);
            vec_one.push(self.evals[idx0 + pw]);
            k = k + 1;
        }
        proof {
            assert(values(vec_zero@) =~= half_table(self.table(), bit as nat, 0));
            assert(values(vec_one@) =~= half_table(self.table(), bit as nat, 1));
        }
        (vec_zero, vec_one)
    }
}

} // verus!
