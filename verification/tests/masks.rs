use ssle_core::generate_dd_random;
use ssle_core::masks::{dd_moduli, dd_random_from_draws, mask_from_draw};

fn value(limbs: &[u64]) -> u128 {
    limbs.iter().rev().fold(0u128, |acc, &l| (acc << 64) | l as u128)
}

#[test]
fn dd_moduli_rounds_q_up_to_a_multiple() {
    let (qp, dp) = dd_moduli(&[100], 7);
    assert_eq!(value(&qp), 105);
    assert_eq!(value(&dp), 15);
    let (qp, dp) = dd_moduli(&[98], 7);
    assert_eq!(value(&qp), 98);
    assert_eq!(value(&dp), 14);
    let (qp, dp) = dd_moduli(&[0, 1], 3);
    assert_eq!(value(&qp), (1u128 << 64) + 2);
    assert_eq!(value(&dp), ((1u128 << 64) + 2) / 3);
}

fn check_masks(party_count: usize, length: usize, dp_limbs: &[u64], qp_limbs: &[u64]) {
    let rng = &mut rand::rng();
    let dp = value(dp_limbs);
    let qp = value(qp_limbs);
    let len = dp_limbs.len();
    let shares = generate_dd_random(party_count, length, dp_limbs, qp_limbs, rng);
    assert_eq!(shares.len(), party_count);
    for (d, q) in &shares {
        assert_eq!(d.len(), len * length);
        assert_eq!(q.len(), len * length);
    }
    let bound = 1u128 << 30;
    // every party but the last holds one small signed value per chunk
    for (d, q) in &shares[..party_count - 1] {
        for c in 0..length {
            let vd = value(&d[c * len..(c + 1) * len]);
            let vq = value(&q[c * len..(c + 1) * len]);
            if vd < bound {
                assert_eq!(vq, vd);
            } else {
                assert!(dp - vd < bound);
                assert_eq!(qp - vq, dp - vd);
            }
        }
    }
    for c in 0..length {
        let mut sd: u128 = 0;
        let mut sq: u128 = 0;
        for (d, q) in &shares {
            let vd = value(&d[c * len..(c + 1) * len]);
            let vq = value(&q[c * len..(c + 1) * len]);
            assert!(vd < dp);
            assert!(vq < qp);
            sd = (sd + vd) % dp;
            sq = (sq + vq) % qp;
        }
        // both sums open to one signed value below 2^30 in magnitude
        let (magnitude, negative) = if sd < bound { (sd, false) } else { (dp - sd, true) };
        assert!(magnitude < bound);
        let expected_q = if negative { (qp - magnitude % qp) % qp } else { magnitude % qp };
        assert_eq!(sq, expected_q, "chunk {c}");
    }
}

#[test]
fn dd_randoms_open_to_the_same_value() {
    check_masks(3, 6, &[(1u64 << 40) + 15], &[3 * ((1u64 << 40) + 15)]);
    check_masks(1, 4, &[(1u64 << 31) + 1], &[1u64 << 62]);
}

#[test]
fn dd_randoms_with_two_limb_moduli() {
    check_masks(2, 3, &[5, 1], &[17, 3]);
}

#[test]
fn masks_from_draws_take_the_drawn_sign() {
    let dp = [(1u64 << 40) + 15];
    let qp = [3 * ((1u64 << 40) + 15)];
    assert_eq!(mask_from_draw(7, true, &dp, &qp), (vec![7], vec![7]));
    assert_eq!(mask_from_draw(7, false, &dp, &qp), (vec![dp[0] - 7], vec![qp[0] - 7]));
    assert_eq!(mask_from_draw(0, false, &dp, &qp), (vec![0], vec![0]));
    // two-limb moduli 2^64 + 5 and 3 · 2^64 + 17
    let r = (1u64 << 30) - 1;
    let (x, y) = mask_from_draw(r, false, &[5, 1], &[17, 3]);
    assert_eq!(value(&x), (1u128 << 64) + 5 - r as u128);
    assert_eq!(value(&y), (3u128 << 64) + 17 - r as u128);
}

#[test]
fn mask_table_from_draws() {
    let dp = [2000u64 << 20];
    let qp = [14000u64 << 20];
    // the opened values 5 and -4, then party 0's masks -3 and 2, then party 1's 1 and -1
    let draws = [(5, true), (4, false), (3, false), (2, true), (1, true), (1, false)];
    let table = dd_random_from_draws(3, 2, &draws, &dp, &qp);
    assert_eq!(table.len(), 3);
    assert_eq!(table[0], (vec![dp[0] - 3, 2], vec![qp[0] - 3, 2]));
    assert_eq!(table[1], (vec![1, dp[0] - 1], vec![1, qp[0] - 1]));
    // the last party makes them open: 5 - (-3 + 1) = 7 and -4 - (2 - 1) = -5
    assert_eq!(table[2], (vec![7, dp[0] - 5], vec![7, qp[0] - 5]));
}
