use ssle_core::fast_path::{add_mod, sub_mod};
use ssle_core::{
    add_mod_u128, biguint_to_u128, neg_mod_u128, read_u128, scale_round_and_mod, sub_mod_u128,
    write_u128,
};

#[test]
fn add_mod_wraps_below_modulus() {
    assert_eq!(add_mod(7, 9, 11), 5);
}

#[test]
fn sub_mod_wraps_below_zero() {
    assert_eq!(sub_mod(3, 9, 11), 5);
}

#[test]
fn add_mod_handles_operands_near_u128_max() {
    let m = u128::MAX - 4;
    assert_eq!(add_mod(u128::MAX, u128::MAX, m), 8);
}

#[test]
fn pair_round_trips_through_u128() {
    let mut a = [0u64; 2];
    let v: u128 = (7u128 << 64) | 12345;
    write_u128(&mut a, v);
    assert_eq!(a, [12345, 7]);
    assert_eq!(read_u128(&a), v);
}

#[test]
fn pair_add_sub_neg_modulo() {
    let m: u128 = (1u128 << 100) + 3;
    let mut a = [0u64; 2];
    write_u128(&mut a, m - 1);
    let mut b = [0u64; 2];
    write_u128(&mut b, 5);
    add_mod_u128(&mut a, &b, m);
    assert_eq!(read_u128(&a), 4);
    sub_mod_u128(&mut a, &b, m);
    assert_eq!(read_u128(&a), m - 1);
    neg_mod_u128(&mut a, m);
    assert_eq!(read_u128(&a), 1);
    let mut z = [0u64; 2];
    neg_mod_u128(&mut z, m);
    assert_eq!(read_u128(&z), 0);
}

#[test]
fn biguint_to_u128_fits_in_two_limbs() {
    assert_eq!(biguint_to_u128(&[]), Some(0));
    assert_eq!(biguint_to_u128(&[5]), Some(5));
    assert_eq!(biguint_to_u128(&[1, 2]), Some((2u128 << 64) | 1));
    assert_eq!(biguint_to_u128(&[1, 2, 0]), Some((2u128 << 64) | 1));
    assert_eq!(biguint_to_u128(&[1, 2, 3]), None);
}

#[test]
fn scale_round_and_mod_rounds_halves_up() {
    // 5 * 7 / 10 = 3.5 -> 4; 4 mod 3 = 1
    let mut value = [5u64, 0];
    let mut e = [0u64; 2];
    scale_round_and_mod(&mut value, &mut e, 10, 7, 3);
    assert_eq!(read_u128(&value), 4);
    assert_eq!(read_u128(&e), 1);
    // 3 * 7 / 10 = 2.1 -> 2
    let mut value = [3u64, 0];
    scale_round_and_mod(&mut value, &mut e, 10, 7, 3);
    assert_eq!(read_u128(&value), 2);
    assert_eq!(read_u128(&e), 2);
}

#[test]
fn scale_round_and_mod_uses_the_wide_product() {
    let q: u128 = (1u128 << 100) + 7;
    let qp: u128 = (1u128 << 101) + 13;
    let v: u128 = (1u128 << 99) + 5;
    let mut value = [0u64; 2];
    write_u128(&mut value, v);
    let mut e = [0u64; 2];
    let dp: u128 = 1_000_003;
    scale_round_and_mod(&mut value, &mut e, q, qp, dp);
    // v * qp = q * (2^100 + 9) + (2^99 + 2), and 2 * (2^99 + 2) < q: no rounding up.
    let expected: u128 = (1u128 << 100) + 9;
    assert_eq!(read_u128(&value), expected);
    assert_eq!(read_u128(&e), expected % dp);
}
