use ssle_core::bignum::{
    add_modulo_assign, limbs_add, limbs_double, limbs_double_ge, limbs_ge, limbs_ge_any,
    limbs_half, limbs_increment, limbs_is_zero, limbs_pad, limbs_sub, neg_modulo_assign,
    store_truncated, sub_modulo_assign, sub_value,
};

#[test]
fn limbs_add_carries_across_limbs() {
    let (s, carry) = limbs_add(&[u64::MAX, u64::MAX], &[1, 0]);
    assert_eq!(s, vec![0, 0]);
    assert_eq!(carry, 1);
    let (s, carry) = limbs_add(&[u64::MAX, 3], &[2, 4]);
    assert_eq!(s, vec![1, 8]);
    assert_eq!(carry, 0);
}

#[test]
fn limbs_sub_borrows_when_smaller() {
    let (d, borrow) = limbs_sub(&[0, 1], &[1, 0]);
    assert_eq!(d, vec![u64::MAX, 0]);
    assert_eq!(borrow, 0);
    let (d, borrow) = limbs_sub(&[1, 0], &[2, 0]);
    assert_eq!(d, vec![u64::MAX, u64::MAX]);
    assert_eq!(borrow, 1);
}

#[test]
fn limbs_comparisons() {
    assert!(limbs_is_zero(&[0, 0, 0]));
    assert!(!limbs_is_zero(&[0, 1]));
    assert!(limbs_ge(&[0, 2], &[u64::MAX, 1]));
    assert!(!limbs_ge(&[u64::MAX, 1], &[0, 2]));
    assert!(limbs_ge(&[5, 5], &[5, 5]));
    assert!(limbs_ge_any(&[0, 1], &[u64::MAX]));
    assert!(!limbs_ge_any(&[7], &[0, 1]));
    assert!(limbs_ge_any(&[7, 0, 0], &[7]));
    assert!(limbs_double_ge(&[5], &[10]));
    assert!(!limbs_double_ge(&[4], &[10]));
    assert!(limbs_double_ge(&[1u64 << 63], &[0, 1]));
}

#[test]
fn modular_limb_arithmetic() {
    let m = [3u64, 1]; // 2^64 + 3
    let mut a = [2u64, 1]; // 2^64 + 2
    add_modulo_assign(&mut a, &[5, 0], &m);
    assert_eq!(a, [4, 0]);
    sub_modulo_assign(&mut a, &[6, 0], &m);
    assert_eq!(a, [1, 1]);
    neg_modulo_assign(&mut a, &m);
    assert_eq!(a, [2, 0]);
    let mut z = [0u64, 0];
    neg_modulo_assign(&mut z, &m);
    assert_eq!(z, [0, 0]);
}

#[test]
fn limb_shapes() {
    assert_eq!(limbs_half(&[1, 1]), vec![1u64 << 63, 0]);
    assert_eq!(limbs_pad(&[4], 3), vec![4, 0, 0]);
    assert_eq!(limbs_double(&[1u64 << 63]), vec![0, 1]);
    assert_eq!(limbs_increment(&[u64::MAX]), vec![0, 1]);
    assert_eq!(limbs_increment(&[]), vec![1]);
    let mut out = [0u64; 2];
    sub_value(&[0, 1], 1, &mut out);
    assert_eq!(out, [u64::MAX, 0]);
    let mut dst = [9u64; 2];
    store_truncated(&mut dst, &[1, 2, 3]);
    assert_eq!(dst, [1, 2]);
    let mut dst = [9u64; 3];
    store_truncated(&mut dst, &[1]);
    assert_eq!(dst, [1, 0, 0]);
}
