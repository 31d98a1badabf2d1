//! The sum-check protocol for a multilinear polynomial, made non-interactive
//! with a Keccak-256 transcript.

use crate::field::{be_bytes32, fadd, modulus, Fe};
use vstd::arithmetic::div_mod::{
    lemma_add_mod_noop, lemma_add_mod_noop_right,
    lemma_fundamental_div_mod, lemma_mod_bound, lemma_small_mod, lemma_sub_mod_noop,
};
use crate::multilinear::{
    interp, interpolate, lemma_halves_of_first_variable, lemma_interp_congruent, lemma_interp_int, lemma_pow2_exponent_bound, mle_eval,
    partial_table, values, MultilinearPoly,
};
use crate::transcript::{keccak_challenge, HashTrait, Keccak256Hasher, Transcript};
use vstd::arithmetic::power2::{lemma_pow2_pos, lemma_pow2_unfold, pow2};
use vstd::prelude::*;

verus! {

/// The field sum of a sequence.
pub open spec fn fsum(s: Seq<int>) -> int
    decreases s.len(),
{
    if s.len() == 0 {
        0
    } else {
        fadd(fsum(s.drop_last()), s.last())
    }
}

/// The byte encoding of a sequence of field values: the 32-byte big-endian
/// encoding of each, in order.
pub open spec fn encode(s: Seq<int>) -> Seq<u8>
    decreases s.len(),
{
    if s.len() == 0 {
        Seq::empty()
    } else {
        encode(s.drop_last()) + be_bytes32(s.last())
    }
}

/// The encodings of the round polynomials, in order.
pub open spec fn encode_rounds(rounds: Seq<Seq<int>>) -> Seq<u8>
    decreases rounds.len(),
{
    if rounds.len() == 0 {
        Seq::empty()
    } else {
        encode_rounds(rounds.drop_last()) + encode(rounds.last())
    }
}

/// What both parties have absorbed once the table, the claimed sum and the
/// given round polynomials are in.
pub open spec fn transcript_bytes(t: Seq<int>, claimed: int, rounds: Seq<Seq<int>>) -> Seq<u8> {
    encode(t) + encode(seq![claimed]) + encode_rounds(rounds)
}

/// The challenges: entry `i` follows the absorption of round `i`.
pub open spec fn challenges(t: Seq<int>, claimed: int, rounds: Seq<Seq<int>>) -> Seq<int> {
    Seq::new(
        rounds.len(),
        |i: int| keccak_challenge(transcript_bytes(t, claimed, rounds.take(i + 1))),
    )
}

/// The round polynomial of a table, by its values at 0 and 1 in the first
/// variable: the sums of the first and of the second half.
pub open spec fn round_of(t: Seq<int>) -> Seq<int> {
    seq![fsum(t.take((t.len() / 2) as int)), fsum(t.skip((t.len() / 2) as int))]
}

/// The honest prover after `k` of the `n` rounds on table `t`: the round
/// polynomials sent, and the table with the first `k` variables fixed to
/// their challenges.
pub open spec fn honest_state(t: Seq<int>, n: nat, k: nat) -> (Seq<Seq<int>>, Seq<int>)
    decreases k,
{
    if k == 0 {
        (Seq::empty(), t)
    } else {
        let prev = honest_state(t, n, (k - 1) as nat);
        let rounds = prev.0.push(round_of(prev.1));
        (
            rounds,
            partial_table(
                prev.1,
                (n - k) as nat,
                keccak_challenge(transcript_bytes(t, fsum(t), rounds)),
            ),
        )
    }
}

/// The round polynomials of the honest proof for `t` over `n` variables.
pub open spec fn honest_rounds(t: Seq<int>, n: nat) -> Seq<Seq<int>> {
    honest_state(t, n, n).0
}

/// The verifier's decision on a proof for table `t` over `n` variables.
pub open spec fn accepts(t: Seq<int>, n: nat, claimed: int, rounds: Seq<Seq<int>>) -> bool {
    let ch = challenges(t, claimed, rounds);
    &&& rounds.len() == n
    &&& n >= 1
    &&& forall|i: int| 0 <= i < n ==> (#[trigger] rounds[i]).len() == 2
    &&& fadd(rounds[0][0], rounds[0][1]) == claimed
    &&& forall|i: int|
        0 <= i < n - 1 ==> interp(rounds[i][0], rounds[i][1], #[trigger] ch[i]) == fadd(
            rounds[i + 1][0],
            rounds[i + 1][1],
        )
    &&& interp(rounds[n - 1][0], rounds[n - 1][1], ch[n - 1]) == mle_eval(t, ch)
}

/// A round polynomial, by its values at 0 and at 1.
#[derive(Clone, Debug)]
pub struct UnivariatePoly {
    pub evals: Vec<Fe>,
}

/// A claimed sum and one round polynomial per variable.
#[derive(Clone, Debug)]
pub struct Proof {
    pub initial_claimed_sum: Fe,
    pub proof: Vec<UnivariatePoly>,
}

/// The values of the round polynomials of a proof.
pub open spec fn rounds_model(v: Seq<UnivariatePoly>) -> Seq<Seq<int>> {
    v.map_values(|p: UnivariatePoly| values(p.evals@))
}

/// The prover holds the whole table over `n_vars` variables.
pub struct Prover {
    pub initial_poly: Vec<Fe>,
    pub n_vars: usize,
}

/// The verifier also holds the table, for the final evaluation check.
pub struct Verifier {
    pub initial_poly: Vec<Fe>,
    pub n_vars: usize,
}

/// The field sum of the entries.
pub fn sum_evals(v: &Vec<Fe>) -> (r: Fe)
    ensures
        r@ == fsum(values(v@)),
{
    let mut sum = Fe::zero();
    let mut i: usize = 0;
    while i < v.len()
        invariant
            i <= v@.len(),
            sum@ == fsum(values(v@).take(i as int)),
        decreases v@.len() - i,
    {
        proof {
            assert(values(v@).take(i + 1).drop_last() =~= values(v@).take(i as int));
        }
        sum = sum.add(&v[i]);
        i = i + 1;
    }
    assert(values(v@).take(v@.len() as int) =~= values(v@));
    sum
}

/// The byte encoding of the elements, each as 32 big-endian bytes.
pub fn to_bytes(input: Vec<Fe>) -> (r: Vec<u8>)
    ensures
        r@ == encode(values(input@)),
{
    let mut bytes: Vec<u8> = Vec::new();
    let mut i: usize = 0;
    while i < input.len()
        invariant
            i <= input@.len(),
            bytes@ == encode(values(input@).take(i as int)),
        decreases input@.len() - i,
    {
        let mut b = input[i].to_bytes_be();
        proof {
            assert(values(input@).take(i + 1).drop_last() =~= values(input@).take(i as int));
        }
        bytes.append(&mut b);
        i = i + 1;
    }
    assert(values(input@).take(input@.len() as int) =~= values(input@));
    bytes
}

/// The entries of a slice, in a new vector.
fn copy_entries(s: &[Fe]) -> (r: Vec<Fe>)
    ensures
        r@ == s@,
{
    let mut r: Vec<Fe> = Vec::new();
    let mut i: usize = 0;
    while i < s.len()
        invariant
            i <= s@.len(),
            r@ == s@.subrange(0, i as int),
        decreases s@.len() - i,
    {
        r.push(s[i]);
        i = i + 1;
        assert(r@ =~= s@.subrange(0, i as int));
    }
    assert(s@.subrange(0, s@.len() as int) =~= s@);
    r
}

/// The number of variables of a table of `len` entries, `len` a power of two.
fn log2_exact(len: usize) -> (n: usize)
    requires
        exists|m: nat| pow2(m) == len,
    ensures
        pow2(n as nat) == len,
{
    let ghost m = choose|m: nat| pow2(m) == len;
    proof {
        lemma_pow2_exponent_bound(m);
    }
    let mut n: usize = 0;
    let mut p: usize = 1;
    proof {
        vstd::arithmetic::power2::lemma2_to64();
    }
    while p < len
        invariant
            pow2(m) == len,
            p == pow2(n as nat),
            n <= m,
            m < 64,
        decreases m - n,
    {
        proof {
            lemma_pow2_unfold((n + 1) as nat);
            if n == m {
            } else if n + 1 < m {
                vstd::arithmetic::power2::lemma_pow2_strictly_increases((n + 1) as nat, m);
            }
        }
        p = p * 2;
        n = n + 1;
    }
    proof {
        if n < m {
            vstd::arithmetic::power2::lemma_pow2_strictly_increases(n as nat, m);
        }
    }
    n
}

/// The two halves of a table, split on variable `remove_var`.
pub fn create_paired_arrays_from_poly(poly: &[Fe], remove_var: usize) -> (r: (Vec<Fe>, Vec<Fe>))
    requires
        exists|n: nat| pow2(n) == poly@.len() && remove_var < n,
    ensures
        forall|n: nat|
            pow2(n) == poly@.len() ==> {
                &&& values(r.0@) == crate::multilinear::half_table(
                    values(poly@),
                    (n - 1 - remove_var) as nat,
                    0,
                )
                &&& values(r.1@) == crate::multilinear::half_table(
                    values(poly@),
                    (n - 1 - remove_var) as nat,
                    1,
                )
            },
{
    let n = log2_exact(poly.len());
    proof {
        let m = choose|m: nat| pow2(m) == poly@.len() && remove_var < m;
        lemma_pow2_injective(m, n as nat);
        assert forall|k: nat| pow2(k) == poly@.len() implies k == n by {
            lemma_pow2_injective(k, n as nat);
        }
    }
    let table = MultilinearPoly::new(n, copy_entries(poly));
    table.create_paired_arrays(remove_var)
}

/// Distinct exponents give distinct powers of two.
pub proof fn lemma_pow2_injective(a: nat, b: nat)
    requires
        pow2(a) == pow2(b),
    ensures
        a == b,
{
    if a < b {
        vstd::arithmetic::power2::lemma_pow2_strictly_increases(a, b);
    } else if b < a {
        vstd::arithmetic::power2::lemma_pow2_strictly_increases(b, a);
    }
}

/// Fixes variable `index_value.0` of the table to `index_value.1`.
fn fix_variable(poly: &[Fe], index_value: (usize, Fe)) -> (r: Vec<Fe>)
    requires
        exists|n: nat| pow2(n) == poly@.len() && index_value.0 < n,
    ensures
        forall|n: nat|
            pow2(n) == poly@.len() ==> values(r@) == partial_table(
                values(poly@),
                (n - 1 - index_value.0) as nat,
                index_value.1@,
            ),
{
    let n = log2_exact(poly.len());
    proof {
        let m = choose|m: nat| pow2(m) == poly@.len() && index_value.0 < m;
        lemma_pow2_injective(m, n as nat);
        assert forall|k: nat| pow2(k) == poly@.len() implies k == n by {
            lemma_pow2_injective(k, n as nat);
        }
    }
    let table = MultilinearPoly::new(n, copy_entries(poly));
    table.partial_evaluate(index_value).evals
}

/// Absorbing one more round polynomial extends the transcript by its encoding.
pub proof fn lemma_transcript_push(t: Seq<int>, claimed: int, rounds: Seq<Seq<int>>, r: Seq<int>)
    ensures
        transcript_bytes(t, claimed, rounds.push(r)) == transcript_bytes(t, claimed, rounds)
            + encode(r),
{
    assert(rounds.push(r).drop_last() =~= rounds);
    assert(transcript_bytes(t, claimed, rounds.push(r)) =~= transcript_bytes(t, claimed, rounds)
        + encode(r));
}

/// The honest prover's tables halve in length each round.
pub proof fn lemma_honest_table_len(t: Seq<int>, n: nat, k: nat)
    requires
        t.len() == pow2(n),
        k <= n,
    ensures
        honest_state(t, n, k).1.len() == pow2((n - k) as nat),
        honest_state(t, n, k).0.len() == k,
    decreases k,
{
    if k > 0 {
        lemma_honest_table_len(t, n, (k - 1) as nat);
        lemma_pow2_unfold((n - k + 1) as nat);
    }
}

/// The round polynomial of a table over `m >= 1` variables sums the two
/// halves obtained by fixing its first variable.
proof fn lemma_round_of_halves(cur: Seq<int>, m: nat)
    requires
        m >= 1,
        cur.len() == pow2(m),
    ensures
        round_of(cur) == seq![
            fsum(crate::multilinear::half_table(cur, (m - 1) as nat, 0)),
            fsum(crate::multilinear::half_table(cur, (m - 1) as nat, 1)),
        ],
{
    lemma_halves_of_first_variable(cur, m);
}

/// A field sum is a canonical value.
pub proof fn lemma_fsum_range(s: Seq<int>)
    ensures
        0 <= fsum(s) < modulus(),
    decreases s.len(),
{
    if s.len() > 0 {
        lemma_mod_bound(fsum(s.drop_last()) + s.last(), modulus());
    }
}

/// The sum of a concatenation is the sum of the sums.
pub proof fn lemma_fsum_concat(a: Seq<int>, b: Seq<int>)
    ensures
        fsum(a + b) == fadd(fsum(a), fsum(b)),
    decreases b.len(),
{
    let p = modulus();
    lemma_fsum_range(a);
    if b.len() == 0 {
        assert(a + b =~= a);
        lemma_small_mod(fsum(a) as nat, p as nat);
    } else {
        assert((a + b).drop_last() =~= a + b.drop_last());
        lemma_fsum_concat(a, b.drop_last());
        let x = fsum(a);
        let y = fsum(b.drop_last());
        let l = b.last();
        lemma_add_mod_noop_right(l, x + y, p);
        assert((x + y) % p + l == l + (x + y) % p);
        assert(l + (x + y) == x + y + l);
        lemma_add_mod_noop_right(x, y + l, p);
        assert(x + y + l == x + (y + l));
    }
}

/// Summing pointwise interpolations interpolates the sums.
pub proof fn lemma_fsum_interp(a: Seq<int>, b: Seq<int>, y: Seq<int>, c: int)
    requires
        a.len() == b.len(),
        y.len() == a.len(),
        forall|k: int| 0 <= k < y.len() ==> y[k] == interp(a[k], b[k], c),
    ensures
        fsum(y) == interp(fsum(a), fsum(b), c),
    decreases y.len(),
{
    let p = modulus();
    if y.len() == 0 {
        lemma_interp_int(0, 0, c);
        assert(c * (0int - 0int) == 0) by (nonlinear_arith);
        lemma_small_mod(0, p as nat);
    } else {
        let a1 = a.drop_last();
        let b1 = b.drop_last();
        let y1 = y.drop_last();
        assert forall|k: int| 0 <= k < y1.len() implies y1[k] == interp(a1[k], b1[k], c) by {
            assert(y1[k] == y[k]);
        }
        lemma_fsum_interp(a1, b1, y1, c);
        let sa = fsum(a1);
        let sb = fsum(b1);
        let al = a.last();
        let bl = b.last();
        lemma_interp_int(sa, sb, c);
        lemma_interp_int(al, bl, c);
        let u = sa + c * (sb - sa);
        let v = al + c * (bl - al);
        lemma_add_mod_noop(u, v, p);
        assert(u + v == (sa + al) + c * ((sb + bl) - (sa + al))) by (nonlinear_arith)
            requires
                u == sa + c * (sb - sa),
                v == al + c * (bl - al),
        ;
        lemma_interp_int(sa + al, sb + bl, c);
        lemma_interp_congruent(sa + al, sb + bl, c);
    }
}

/// Changing one canonical summand changes the sum.
proof fn lemma_fadd_cancel(a: int, a2: int, b: int)
    requires
        0 <= a < modulus(),
        0 <= a2 < modulus(),
        fadd(a, b) == fadd(a2, b),
    ensures
        a == a2,
{
    let p = modulus();
    lemma_sub_mod_noop(a + b, a2 + b, p);
    assert((a + b) - (a2 + b) == a - a2);
    let d = a - a2;
    assert(d % p == 0) by {
        lemma_mod_bound(a + b, p);
        lemma_small_mod(0, p as nat);
    }
    lemma_fundamental_div_mod(d, p);
    let q = d / p;
    assert(q == 0) by (nonlinear_arith)
        requires
            d == p * q,
            -p < d < p,
            p > 0,
    ;
}

/// The rounds sent so far are a prefix of the honest proof.
pub proof fn lemma_honest_prefix(t: Seq<int>, n: nat, k: nat, j: nat)
    requires
        k <= j,
    ensures
        honest_state(t, n, j).0.take(k as int) == honest_state(t, n, k).0,
        honest_state(t, n, j).0.len() == j,
    decreases j,
{
    if j == 0 {
        assert(honest_state(t, n, 0).0.take(0) =~= honest_state(t, n, 0).0);
    } else {
        if k == j {
            lemma_honest_prefix(t, n, (j - 1) as nat, (j - 1) as nat);
            assert(honest_state(t, n, j).0.take(k as int) =~= honest_state(t, n, j).0);
        } else {
            lemma_honest_prefix(t, n, k, (j - 1) as nat);
            assert(honest_state(t, n, j).0.take(k as int) =~= honest_state(
                t,
                n,
                (j - 1) as nat,
            ).0.take(k as int));
        }
    }
}

/// The challenges of the honest proof are those the honest prover fixed
/// its variables to.
pub proof fn lemma_honest_challenge(t: Seq<int>, n: nat, i: nat)
    requires
        i < n,
    ensures
        honest_state(t, n, (i + 1) as nat).1 == partial_table(
            honest_state(t, n, i).1,
            (n - 1 - i) as nat,
            challenges(t, fsum(t), honest_rounds(t, n))[i as int],
        ),
        honest_rounds(t, n)[i as int] == round_of(honest_state(t, n, i).1),
{
    lemma_honest_prefix(t, n, (i + 1) as nat, n);
    lemma_honest_prefix(t, n, (i + 1) as nat, (i + 1) as nat);
    let r = honest_rounds(t, n);
    assert(r[i as int] == r.take((i + 1) as int)[i as int]);
}

/// Evaluating at the honest challenges passes through the honest tables.
pub proof fn lemma_honest_mle(t: Seq<int>, n: nat, k: nat)
    requires
        t.len() == pow2(n),
        k <= n,
    ensures
        mle_eval(t, challenges(t, fsum(t), honest_rounds(t, n))) == mle_eval(
            honest_state(t, n, k).1,
            challenges(t, fsum(t), honest_rounds(t, n)).skip(k as int),
        ),
    decreases k,
{
    let ch = challenges(t, fsum(t), honest_rounds(t, n));
    lemma_honest_prefix(t, n, n, n);
    if k == 0 {
        assert(ch.skip(0) =~= ch);
    } else {
        lemma_honest_mle(t, n, (k - 1) as nat);
        lemma_honest_challenge(t, n, (k - 1) as nat);
        let x = ch.skip(k - 1);
        assert(x.drop_first() =~= ch.skip(k as int));
        assert(x[0] == ch[k - 1]);
    }
}

/// Each honest round polynomial has two canonical values.
proof fn lemma_honest_round_shape(t: Seq<int>, n: nat, i: int)
    requires
        0 <= i < n,
    ensures
        honest_rounds(t, n)[i].len() == 2,
        0 <= honest_rounds(t, n)[i][0] < modulus(),
        0 <= honest_rounds(t, n)[i][1] < modulus(),
{
    lemma_honest_challenge(t, n, i as nat);
    let cur = honest_state(t, n, i as nat).1;
    lemma_fsum_range(cur.take((cur.len() / 2) as int));
    lemma_fsum_range(cur.skip((cur.len() / 2) as int));
}

/// The first honest round sums to the table's sum.
proof fn lemma_honest_first_round(t: Seq<int>, n: nat)
    requires
        n >= 1,
        t.len() == pow2(n),
    ensures
        fadd(honest_rounds(t, n)[0][0], honest_rounds(t, n)[0][1]) == fsum(t),
{
    lemma_honest_challenge(t, n, 0);
    lemma_halves_of_first_variable(t, n);
    let h = pow2((n - 1) as nat) as int;
    assert(t =~= t.take(h) + t.skip(h));
    lemma_fsum_concat(t.take(h), t.skip(h));
}

/// Each honest round, at its challenge, gives the sum of the next round.
proof fn lemma_honest_round_step(t: Seq<int>, n: nat, i: int)
    requires
        t.len() == pow2(n),
        0 <= i < n - 1,
    ensures
        interp(
            honest_rounds(t, n)[i][0],
            honest_rounds(t, n)[i][1],
            challenges(t, fsum(t), honest_rounds(t, n))[i],
        ) == fadd(honest_rounds(t, n)[i + 1][0], honest_rounds(t, n)[i + 1][1]),
{
    let ch = challenges(t, fsum(t), honest_rounds(t, n));
    lemma_honest_prefix(t, n, n, n);
    let cur = honest_state(t, n, i as nat).1;
    let m = (n - i) as nat;
    lemma_honest_table_len(t, n, i as nat);
    lemma_honest_table_len(t, n, (i + 1) as nat);
    lemma_honest_challenge(t, n, i as nat);
    lemma_honest_challenge(t, n, (i + 1) as nat);
    lemma_halves_of_first_variable(cur, m);
    let next = honest_state(t, n, (i + 1) as nat).1;
    let hm = pow2((m - 1) as nat) as int;
    let a = cur.take(hm);
    let b = cur.skip(hm);
    assert forall|k: int| 0 <= k < next.len() implies next[k] == interp(a[k], b[k], ch[i]) by {}
    lemma_fsum_interp(a, b, next, ch[i]);
    let hn = (next.len() / 2) as int;
    assert(next =~= next.take(hn) + next.skip(hn));
    lemma_fsum_concat(next.take(hn), next.skip(hn));
}

/// The last honest round, at the last challenge, gives the value of the
/// table's extension at all the challenges.
proof fn lemma_honest_last_round(t: Seq<int>, n: nat)
    requires
        n >= 1,
        t.len() == pow2(n),
    ensures
        interp(
            honest_rounds(t, n)[n - 1][0],
            honest_rounds(t, n)[n - 1][1],
            challenges(t, fsum(t), honest_rounds(t, n))[n - 1],
        ) == mle_eval(t, challenges(t, fsum(t), honest_rounds(t, n))),
{
    let ch = challenges(t, fsum(t), honest_rounds(t, n));
    lemma_honest_prefix(t, n, n, n);
    let last = honest_state(t, n, (n - 1) as nat).1;
    lemma_honest_table_len(t, n, (n - 1) as nat);
    lemma_honest_challenge(t, n, (n - 1) as nat);
    lemma_honest_mle(t, n, (n - 1) as nat);
    vstd::arithmetic::power2::lemma2_to64();
    let x = ch.skip(n - 1);
    assert(x.drop_first() =~= Seq::<int>::empty());
    assert(last.take(1) =~= Seq::<int>::empty().push(last[0]));
    assert(last.skip(1) =~= Seq::<int>::empty().push(last[1]));
    assert(Seq::<int>::empty().push(last[0]).drop_last() =~= Seq::<int>::empty());
    assert(Seq::<int>::empty().push(last[1]).drop_last() =~= Seq::<int>::empty());
    lemma_add_mod_noop(0, last[0], modulus());
    lemma_add_mod_noop(0, last[1], modulus());
    lemma_small_mod(0, modulus() as nat);
    lemma_interp_congruent(last[0], last[1], ch[n - 1]);
    assert(crate::multilinear::insert_bit(0, 0, 0) == 0);
    assert(crate::multilinear::insert_bit(0, 0, 1) == 1);
    let c = ch[n - 1];
    assert(x[0] == c);
    assert(x.len() == 1);
    let fixed = partial_table(last, 0, c);
    assert(mle_eval(last, x) == mle_eval(fixed, x.drop_first()));
    assert(mle_eval(fixed, x.drop_first()) == fixed[0]);
    assert(fixed[0] == interp(last[0], last[1], c));
    let r = honest_rounds(t, n)[n - 1];
    assert(r == round_of(last));
    assert(r[0] == fsum(last.take(1)));
    assert(last.take(1).drop_last() =~= Seq::<int>::empty());
    assert(last.skip(1).drop_last() =~= Seq::<int>::empty());
    assert(fsum(Seq::<int>::empty()) == 0);
    assert(fsum(last.take(1)) == fadd(0, last[0]));
    assert(fsum(last.skip(1)) == fadd(0, last[1]));
    assert(r[0] == last[0] % modulus());
    assert(r[1] == last[1] % modulus());
}

/// Every honestly generated proof is accepted.
pub proof fn lemma_sumcheck_complete(t: Seq<int>, n: nat)
    requires
        n >= 1,
        t.len() == pow2(n),
    ensures
        accepts(t, n, fsum(t), honest_rounds(t, n)),
{
    let r = honest_rounds(t, n);
    let ch = challenges(t, fsum(t), r);
    lemma_honest_prefix(t, n, n, n);
    assert forall|i: int| 0 <= i < n implies (#[trigger] r[i]).len() == 2 by {
        lemma_honest_round_shape(t, n, i);
    }
    lemma_honest_first_round(t, n);
    assert forall|i: int| 0 <= i < n - 1 implies interp(r[i][0], r[i][1], #[trigger] ch[i])
        == fadd(r[i + 1][0], r[i + 1][1]) by {
        lemma_honest_round_step(t, n, i);
    }
    lemma_honest_last_round(t, n);
}

/// Changing any single value of any round polynomial of an honest proof
/// to another canonical value makes the verifier reject it.
pub proof fn lemma_sumcheck_tamper_rejected(t: Seq<int>, n: nat, i: int, j: int, v: int)
    requires
        n >= 1,
        t.len() == pow2(n),
        0 <= i < n,
        0 <= j < 2,
        0 <= v < modulus(),
        v != honest_rounds(t, n)[i][j],
    ensures
        !accepts(
            t,
            n,
            fsum(t),
            honest_rounds(t, n).update(i, honest_rounds(t, n)[i].update(j, v)),
        ),
{
    let r = honest_rounds(t, n);
    let r2 = r.update(i, r[i].update(j, v));
    let s = fsum(t);
    lemma_sumcheck_complete(t, n);
    lemma_honest_round_shape(t, n, i);
    let old_sum = fadd(r[i][0], r[i][1]);
    let new_sum = fadd(r2[i][0], r2[i][1]);
    if j == 0 {
        if new_sum == old_sum {
            lemma_fadd_cancel(v, r[i][0], r[i][1]);
        }
    } else {
        if new_sum == old_sum {
            assert(r[i][0] + v == v + r[i][0]);
            assert(r[i][0] + r[i][1] == r[i][1] + r[i][0]);
            lemma_fadd_cancel(v, r[i][1], r[i][0]);
        }
    }
    assert(new_sum != old_sum);
    if i > 0 {
        assert(r2.take(i) =~= r.take(i));
        let ch = challenges(t, s, r);
        let ch2 = challenges(t, s, r2);
        assert(ch2[i - 1] == ch[i - 1]);
        assert(r2[i - 1] == r[i - 1]);
    }
}

/// A round polynomial from its two sums.
fn round_poly(e0: Fe, e1: Fe) -> (r: UnivariatePoly)
    ensures
        values(r.evals@) == seq![e0@, e1@],
{
    let evals = vec![e0, e1];
    assert(values(evals@) =~= seq![e0@, e1@]);
    UnivariatePoly { evals }
}

/// The encoding of one element.
fn element_bytes(e: Fe) -> (r: Vec<u8>)
    ensures
        r@ == encode(seq![e@]),
{
    let v = vec![e];
    assert(values(v@) =~= seq![e@]);
    to_bytes(v)
}

impl Prover {
    /// The table has an entry for each point of the hypercube.
    pub open spec fn wf(&self) -> bool {
        self.initial_poly@.len() == pow2(self.n_vars as nat)
    }

    pub fn new(n_vars: usize, initial_poly: Vec<Fe>) -> (r: Prover)
        requires
            initial_poly@.len() == pow2(n_vars as nat),
        ensures
            r.wf(),
            r.n_vars == n_vars,
            r.initial_poly@ == initial_poly@,
    {
        Prover { initial_poly, n_vars }
    }

    /// The honest proof that the table sums to its total.
    pub fn prove(&self) -> (r: Proof)
        requires
            self.wf(),
            self.n_vars >= 1,
        ensures
            r.initial_claimed_sum@ == fsum(values(self.initial_poly@)),
            rounds_model(r.proof@) == honest_rounds(values(self.initial_poly@), self.n_vars as nat),
    {
        let ghost t = values(self.initial_poly@);
        let ghost n = self.n_vars as nat;
        let hasher = Keccak256Hasher::new();
        let mut transcript: Transcript<Keccak256Hasher> = Transcript::init(hasher);
        let bytes = to_bytes(copy_entries(self.initial_poly.as_slice()));
        transcript.absorb(bytes.as_slice());
        let initial_claimed_sum = sum_evals(&self.initial_poly);
        let sum_bytes = element_bytes(initial_claimed_sum);
        transcript.absorb(sum_bytes.as_slice());
        let ghost s = initial_claimed_sum@;
        let (y0, y1) = self.create_paired_arrays(0);
        let eval_0 = sum_evals(&y0);
        let eval_1 = sum_evals(&y1);
        let first = round_poly(eval_0, eval_1);
        let first_bytes = to_bytes(first.evals.clone());
        proof {
            lemma_round_of_halves(t, n);
            lemma_transcript_push(t, s, Seq::empty(), values(first.evals@));
            assert(encode_rounds(Seq::<Seq<int>>::empty()) =~= Seq::<u8>::empty());
            assert(transcript_bytes(t, s, Seq::empty()) =~= encode(t) + encode(seq![s]));
            assert(honest_state(t, n, 0).0 =~= Seq::<Seq<int>>::empty());
        }
        transcript.absorb(first_bytes.as_slice());
        let mut univariate_polys: Vec<UnivariatePoly> = Vec::new();
        univariate_polys.push(first);
        let mut current_poly = copy_entries(self.initial_poly.as_slice());
        proof {
            assert(rounds_model(univariate_polys@) =~= honest_state(t, n, 1).0);
            lemma_honest_table_len(t, n, 0);
        }
        let mut var_idx: usize = 0;
        while var_idx < self.n_vars - 1
            invariant
                self.wf(),
                t == values(self.initial_poly@),
                n == self.n_vars,
                n >= 1,
                s == fsum(t),
                var_idx <= n - 1,
                rounds_model(univariate_polys@) == honest_state(t, n, (var_idx + 1) as nat).0,
                values(current_poly@) == honest_state(t, n, var_idx as nat).1,
                current_poly@.len() == pow2((n - var_idx) as nat),
                transcript.absorbed() == transcript_bytes(
                    t,
                    s,
                    honest_state(t, n, (var_idx + 1) as nat).0,
                ),
            decreases n - 1 - var_idx,
        {
            let r_i = transcript.squeeze();
            let ghost m = (n - var_idx) as nat;
            proof {
                assert(values(current_poly@).len() == current_poly@.len());
            }
            current_poly = self.partial_evaluate(current_poly.as_slice(), (0, r_i));
            proof {
                lemma_pow2_unfold(m);
                assert(values(current_poly@).len() == current_poly@.len());
                lemma_honest_table_len(t, n, (var_idx + 1) as nat);
                lemma_round_of_halves(values(current_poly@), (m - 1) as nat);
            }
            let (y0, y1) = create_paired_arrays_from_poly(current_poly.as_slice(), 0);
            let eval_0 = sum_evals(&y0);
            let eval_1 = sum_evals(&y1);
            let next = round_poly(eval_0, eval_1);
            let next_bytes = to_bytes(next.evals.clone());
            proof {
                lemma_transcript_push(
                    t,
                    s,
                    honest_state(t, n, (var_idx + 1) as nat).0,
                    values(next.evals@),
                );
            }
            transcript.absorb(next_bytes.as_slice());
            univariate_polys.push(next);
            proof {
                assert(rounds_model(univariate_polys@) =~= honest_state(
                    t,
                    n,
                    (var_idx + 2) as nat,
                ).0);
            }
            var_idx = var_idx + 1;
        }
        Proof { initial_claimed_sum, proof: univariate_polys }
    }

    /// Fixes variable `index_value.0` of `poly` to `index_value.1`.
    pub fn partial_evaluate(&self, poly: &[Fe], index_value: (usize, Fe)) -> (r: Vec<Fe>)
        requires
            exists|n: nat| pow2(n) == poly@.len() && index_value.0 < n,
        ensures
            forall|n: nat|
                pow2(n) == poly@.len() ==> values(r@) == partial_table(
                    values(poly@),
                    (n - 1 - index_value.0) as nat,
                    index_value.1@,
                ),
    {
        fix_variable(poly, index_value)
    }

    /// The halves of the initial table, split on variable `remove_var`.
    pub fn create_paired_arrays(&self, remove_var: usize) -> (r: (Vec<Fe>, Vec<Fe>))
        requires
            self.wf(),
            remove_var < self.n_vars,
        ensures
            values(r.0@) == crate::multilinear::half_table(
                values(self.initial_poly@),
                (self.n_vars - 1 - remove_var) as nat,
                0,
            ),
            values(r.1@) == crate::multilinear::half_table(
                values(self.initial_poly@),
                (self.n_vars - 1 - remove_var) as nat,
                1,
            ),
    {
        create_paired_arrays_from_poly(self.initial_poly.as_slice(), remove_var)
    }
}

impl Verifier {
    /// The table has an entry for each point of the hypercube.
    pub open spec fn wf(&self) -> bool {
        self.initial_poly@.len() == pow2(self.n_vars as nat)
    }

    pub fn new(n_vars: usize, initial_poly: Vec<Fe>) -> (r: Verifier)
        requires
            initial_poly@.len() == pow2(n_vars as nat),
        ensures
            r.wf(),
            r.n_vars == n_vars,
            r.initial_poly@ == initial_poly@,
    {
        Verifier { initial_poly, n_vars }
    }

    /// Checks a proof that the table sums to its claimed sum; a malformed
    /// proof is rejected.
    pub fn verify(&self, proof: Proof) -> (r: bool)
        requires
            self.wf(),
            self.n_vars >= 1,
        ensures
            r == accepts(
                values(self.initial_poly@),
                self.n_vars as nat,
                proof.initial_claimed_sum@,
                rounds_model(proof.proof@),
            ),
    {
        let ghost t = values(self.initial_poly@);
        let ghost n = self.n_vars as nat;
        let ghost rounds = rounds_model(proof.proof@);
        let n_vars = self.n_vars;
        if proof.proof.len() != n_vars {
            return false;
        }
        let mut j: usize = 0;
        while j < n_vars
            invariant
                proof.proof@.len() == n_vars,
                rounds == rounds_model(proof.proof@),
                j <= n_vars,
                forall|i: int| 0 <= i < j ==> (#[trigger] rounds[i]).len() == 2,
            decreases n_vars - j,
        {
            if proof.proof[j].evals.len() != 2 {
                assert(rounds[j as int].len() != 2);
                return false;
            }
            j = j + 1;
        }
        let hasher = Keccak256Hasher::new();
        let mut transcript: Transcript<Keccak256Hasher> = Transcript::init(hasher);
        let bytes = to_bytes(copy_entries(self.initial_poly.as_slice()));
        transcript.absorb(bytes.as_slice());
        let init_sum = proof.initial_claimed_sum;
        let ghost s = init_sum@;
        let sum_bytes = element_bytes(init_sum);
        transcript.absorb(sum_bytes.as_slice());
        let univariate_evals = &proof.proof[0].evals;
        proof {
            assert(rounds[0].len() == 2);
            assert(rounds[0][0] == univariate_evals@[0]@);
            assert(rounds[0][1] == univariate_evals@[1]@);
        }
        let init_result = univariate_evals[0].add(&univariate_evals[1]);
        if !init_sum.equals(&init_result) {
            return false;
        }
        let first_bytes = to_bytes(copy_entries(univariate_evals.as_slice()));
        proof {
            lemma_transcript_push(t, s, Seq::empty(), rounds[0]);
            assert(encode_rounds(Seq::<Seq<int>>::empty()) =~= Seq::<u8>::empty());
            assert(transcript_bytes(t, s, Seq::empty()) =~= encode(t) + encode(seq![s]));
            assert(rounds.take(1) =~= Seq::<Seq<int>>::empty().push(rounds[0]));
        }
        transcript.absorb(first_bytes.as_slice());
        let mut rand_vals: Vec<Fe> = Vec::new();
        let mut var_idx: usize = 0;
        while var_idx < n_vars - 1
            invariant
                self.wf(),
                t == values(self.initial_poly@),
                n == n_vars,
                n_vars == self.n_vars,
                n >= 1,
                s == proof.initial_claimed_sum@,
                rounds == rounds_model(proof.proof@),
                rounds.len() == n,
                forall|i: int| 0 <= i < n ==> (#[trigger] rounds[i]).len() == 2,
                fadd(rounds[0][0], rounds[0][1]) == s,
                var_idx <= n - 1,
                values(rand_vals@) == challenges(t, s, rounds).take(var_idx as int),
                forall|i: int|
                    0 <= i < var_idx ==> interp(
                        rounds[i][0],
                        rounds[i][1],
                        #[trigger] challenges(t, s, rounds)[i],
                    ) == fadd(rounds[i + 1][0], rounds[i + 1][1]),
                transcript.absorbed() == transcript_bytes(t, s, rounds.take(var_idx + 1)),
            decreases n - 1 - var_idx,
        {
            let r_i = transcript.squeeze();
            let ghost ch = challenges(t, s, rounds);
            assert(r_i@ == ch[var_idx as int]);
            let ghost before = rand_vals@;
            rand_vals.push(r_i);
            assert(values(rand_vals@) =~= values(before).push(r_i@));
            let current_poly = &proof.proof[var_idx].evals;
            let next_poly = &proof.proof[var_idx + 1].evals;
            proof {
                assert(rounds[var_idx as int].len() == 2);
                assert(rounds[var_idx + 1].len() == 2);
                assert(rounds[var_idx as int][0] == current_poly@[0]@);
                assert(rounds[var_idx as int][1] == current_poly@[1]@);
                assert(rounds[var_idx + 1][0] == next_poly@[0]@);
                assert(rounds[var_idx + 1][1] == next_poly@[1]@);
                assert(values(rand_vals@) =~= ch.take(var_idx + 1));
            }
            let eval_at_r = interpolate(&current_poly[0], &current_poly[1], &r_i);
            let next_sum = next_poly[0].add(&next_poly[1]);
            if !eval_at_r.equals(&next_sum) {
                return false;
            }
            let next_bytes = to_bytes(copy_entries(next_poly.as_slice()));
            proof {
                lemma_transcript_push(t, s, rounds.take(var_idx + 1), rounds[var_idx + 1]);
                assert(rounds.take(var_idx + 2) =~= rounds.take(var_idx + 1).push(
                    rounds[var_idx + 1],
                ));
            }
            transcript.absorb(next_bytes.as_slice());
            var_idx = var_idx + 1;
        }
        let r_final = transcript.squeeze();
        let ghost before = rand_vals@;
        rand_vals.push(r_final);
        assert(values(rand_vals@) =~= values(before).push(r_final@));
        let final_poly = &proof.proof[n_vars - 1].evals;
        proof {
            let ch = challenges(t, s, rounds);
            assert(rounds.take(n as int) =~= rounds);
            assert(values(rand_vals@) =~= ch);
            assert(rounds[n - 1].len() == 2);
            assert(rounds[n - 1][0] == final_poly@[0]@);
            assert(rounds[n - 1][1] == final_poly@[1]@);
        }
        let final_ev = interpolate(&final_poly[0], &final_poly[1], &r_final);
        let oracle_eval = self.evaluate_oracle_at_point(rand_vals);
        final_ev.equals(&oracle_eval)
    }

    /// The value of the table's multilinear extension at `points`.
    pub fn evaluate_oracle_at_point(&self, points: Vec<Fe>) -> (r: Fe)
        requires
            self.wf(),
            points@.len() == self.n_vars,
        ensures
            r@ == mle_eval(values(self.initial_poly@), values(points@)),
    {
        let poly = MultilinearPoly::new(self.n_vars, copy_entries(self.initial_poly.as_slice()));
        poly.evaluate(points)
    }

    /// Fixes variable `index_value.0` of `poly` to `index_value.1`.
    pub fn partial_evaluate(&self, poly: &[Fe], index_value: (usize, Fe)) -> (r: Vec<Fe>)
        requires
            exists|n: nat| pow2(n) == poly@.len() && index_value.0 < n,
        ensures
            forall|n: nat|
                pow2(n) == poly@.len() ==> values(r@) == partial_table(
                    values(poly@),
                    (n - 1 - index_value.0) as nat,
                    index_value.1@,
                ),
    {
        fix_variable(poly, index_value)
    }

    /// The halves of the initial table, split on variable `remove_var`.
    pub fn create_paired_arrays(&self, remove_var: usize) -> (r: (Vec<Fe>, Vec<Fe>))
        requires
            self.wf(),
            remove_var < self.n_vars,
        ensures
            values(r.0@) == crate::multilinear::half_table(
                values(self.initial_poly@),
                (self.n_vars - 1 - remove_var) as nat,
                0,
            ),
            values(r.1@) == crate::multilinear::half_table(
                values(self.initial_poly@),
                (self.n_vars - 1 - remove_var) as nat,
                1,
            ),
    {
        create_paired_arrays_from_poly(self.initial_poly.as_slice(), remove_var)
    }
}

} // verus!
