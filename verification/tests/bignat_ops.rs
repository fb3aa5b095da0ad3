use naive_bayes::bignat::BigNat;

#[test]
fn small_values_round_trip() {
    let z = BigNat::from_u64(0);
    assert_eq!(z.limbs, Vec::<u64>::new());
    let x = BigNat::from_u64(7);
    assert_eq!(x.limbs, vec![7]);
}

#[test]
fn multiplication_carries_across_limbs() {
    // (2^64 - 1)^2 = 0xFFFFFFFFFFFFFFFE_0000000000000001, little-endian limbs.
    let mut x = BigNat::from_u64(u64::MAX);
    x.mul_u64(u64::MAX);
    assert_eq!(x.limbs, vec![1, 0xFFFF_FFFF_FFFF_FFFE]);
}

#[test]
fn multiplication_by_zero_clears() {
    let mut x = BigNat::from_u64(123);
    x.mul_u64(0);
    assert_eq!(x.limbs, Vec::<u64>::new());
}

#[test]
fn comparison_is_by_value_not_by_length_of_products() {
    // 2^64 * 3 > 2^64 * 2 + 5, and both span two limbs.
    let mut a = BigNat::from_u64(1 << 32);
    a.mul_u64(1 << 32);
    a.mul_u64(3);
    let mut b = BigNat::from_u64(1 << 32);
    b.mul_u64(1 << 32);
    b.mul_u64(2);
    assert!(a.gt(&b));
    assert!(!b.gt(&a));
    let c = BigNat::from_u64(u64::MAX);
    assert!(a.gt(&c));
    assert!(!c.gt(&a));
}

#[test]
fn equal_values_are_not_greater() {
    let mut a = BigNat::from_u64(10);
    a.mul_u64(u64::MAX);
    let mut b = BigNat::from_u64(10);
    b.mul_u64(u64::MAX);
    assert!(!a.gt(&b));
    assert!(!b.gt(&a));
}
