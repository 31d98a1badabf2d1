use sumcheck_gkr::field::Fe;

#[test]
fn minus_one_is_the_modulus_less_one() {
    let m1 = Fe::zero().sub(&Fe::one());
    assert_eq!(
        m1.limbs(),
        [0x43e1f593f0000000, 0x2833e84879b97091, 0xb85045b68181585d, 0x30644e72e131a029]
    );
    assert_eq!(m1.add(&Fe::one()), Fe::zero());
    assert_eq!(Fe::from_i64(-1), m1);
}

#[test]
fn arithmetic_on_small_values() {
    let a = Fe::from_u64(12);
    let b = Fe::from_u64(5);
    assert_eq!(a.add(&b), Fe::from_u64(17));
    assert_eq!(a.sub(&b), Fe::from_u64(7));
    assert_eq!(b.sub(&a), Fe::from_i64(-7));
    assert_eq!(a.mul(&b), Fe::from_u64(60));
    assert_eq!(b.pow(3), Fe::from_u64(125));
    assert_eq!(b.pow(0), Fe::one());
}

#[test]
fn products_wrap_around_the_modulus() {
    let big = Fe::from_u64(u64::MAX);
    let sq = big.mul(&big);
    assert_eq!(sq.limbs(), [1, 0xfffffffffffffffe, 0, 0]);
    assert!(sq.equals(&big.pow(2)));
    assert!(!sq.equals(&big));
}

#[test]
fn inverse_and_division() {
    let a = Fe::from_u64(7);
    let inv = a.inverse().unwrap();
    assert_eq!(inv.mul(&a), Fe::one());
    assert!(Fe::zero().inverse().is_none());
    assert_eq!(Fe::from_u64(21).div(&a), Fe::from_u64(3));
    assert_eq!(Fe::from_u64(21).div(&Fe::zero()), Fe::zero());
}

#[test]
fn bytes_round_trip() {
    let x = Fe::from_u64(0x0102);
    let bytes = x.to_bytes_be();
    assert_eq!(bytes.len(), 32);
    assert_eq!(bytes[30], 1);
    assert_eq!(bytes[31], 2);
    assert!(bytes[..30].iter().all(|b| *b == 0));
    assert_eq!(Fe::from_be_bytes_mod_order(&bytes), x);
    let m1 = Fe::from_i64(-1);
    assert_eq!(Fe::from_be_bytes_mod_order(&m1.to_bytes_be()), m1);
}

#[test]
fn bytes_are_reduced_by_the_modulus() {
    let all_ones = vec![0xffu8; 32];
    let x = Fe::from_be_bytes_mod_order(&all_ones);
    // 2^256 - 1 reduced: below the modulus, so its top limb is small
    assert!(x.limbs()[3] < 0x30644e72e131a029);
    assert_ne!(x.limbs(), [u64::MAX; 4]);
}

#[test]
fn zero_checks() {
    assert!(Fe::zero().is_zero());
    assert!(!Fe::one().is_zero());
    assert!(Fe::from_i64(5).add(&Fe::from_i64(-5)).is_zero());
}
