use ssle_core::opening::open_shares_u128;
use rand::RngExt;
use ssle_core::parameters::{parameter_choice, ShoupFactor};
use ssle_core::protocol::{
    add_random_biguint, add_random_u128, aggregate_e_shares_biguint, aggregate_e_shares_u128,
    aggregate_encode_commits, aggregate_value_shares_biguint, aggregate_value_shares_u128,
    as_array2, center_e_shares_biguint, center_e_shares_u128, decode_commit, div_v_inplace,
    final_value_to_commit_biguint, final_value_to_commit_u128, scale_and_mask_share,
    scale_round_mod_biguint, sub_e_add_random_biguint, sub_e_add_random_u128,
};

const Q: u32 = 12289;

fn pairs(values: &[u128]) -> Vec<u64> {
    values.iter().flat_map(|v| [*v as u64, (*v >> 64) as u64]).collect()
}

fn unpair(limbs: &[u64]) -> Vec<u128> {
    limbs.chunks_exact(2).map(|c| c[0] as u128 | ((c[1] as u128) << 64)).collect()
}

#[test]
fn as_array2_reads_two_limbs() {
    assert_eq!(as_array2(&[3, 4]), [3, 4]);
}

#[test]
fn u128_share_aggregation() {
    let m: u128 = (1u128 << 70) + 1;
    let mut p0 = pairs(&[m - 1, 5]);
    aggregate_e_shares_u128(&mut p0, &pairs(&[3, 10]), m);
    assert_eq!(unpair(&p0), vec![2, 15]);
    let mut v = pairs(&[m - 2, 1]);
    aggregate_value_shares_u128(&mut v, &pairs(&[2]), m);
    assert_eq!(unpair(&v), vec![0, 1]);
    let mut w = pairs(&[4, 4]);
    add_random_u128(&mut w, &pairs(&[m - 4, 1]), m);
    assert_eq!(unpair(&w), vec![0, 5]);
}

#[test]
fn u128_centering_negates_the_upper_half() {
    let mut e = pairs(&[10, 50, 99, 49]);
    e.push(77);
    center_e_shares_u128(&mut e, 100);
    assert_eq!(unpair(&e[..8]), vec![10, 50, 1, 49]);
    assert_eq!(e[8], 77);
    let mut e = pairs(&[0, 60]);
    center_e_shares_u128(&mut e, 100);
    assert_eq!(unpair(&e), vec![0, 40]);
}

#[test]
fn u128_sub_e_add_random() {
    let mut v = pairs(&[10, 90]);
    sub_e_add_random_u128(&mut v, &pairs(&[20, 5]), &pairs(&[5, 30]), 100);
    assert_eq!(unpair(&v), vec![95, 15]);
}

#[test]
fn u128_final_value_rounds_halves_up() {
    assert_eq!(final_value_to_commit_u128(&[25, 0], 10), 3);
    assert_eq!(final_value_to_commit_u128(&[24, 0], 10), 2);
    assert_eq!(final_value_to_commit_u128(&[26, 0, 99], 10), 3);
    // round(2^64 / 3) = 6148914691236517205, truncated to 32 bits
    assert_eq!(final_value_to_commit_u128(&[0, 1], 3), (6148914691236517205u64 % (1u64 << 32)) as u32);
}

#[test]
fn biguint_share_aggregation() {
    // values of two limbs modulo 2^64 + 3
    let m = [3u64, 1];
    let mut p0 = vec![2u64, 1, 7, 0];
    let others = vec![5u64, 0, 1, 0, 1, 0, 2, 0];
    aggregate_e_shares_biguint(&mut p0, &others, &m, 2);
    // (2^64 + 2) + 5 + 1 = 2^64 + 8 ≡ 5; 7 + 1 + 2 = 10
    assert_eq!(p0, vec![5, 0, 10, 0]);
    let mut v = vec![0u64, 1, 0, 0];
    aggregate_value_shares_biguint(&mut v, &[3, 0, 0, 0], &m, 2);
    assert_eq!(v, vec![0, 0, 0, 0]);
}

#[test]
fn biguint_aggregation_adds_value_by_value() {
    // one value per limb modulo 100; party 0 holds four values
    let m = [100u64];
    let mut e = vec![1u64, 2, 3, 4];
    aggregate_e_shares_biguint(&mut e, &[10, 20, 30, 40], &m, 1);
    assert_eq!(e, vec![11, 22, 33, 44]);
    let mut v = vec![1u64, 2, 3, 4];
    aggregate_value_shares_biguint(&mut v, &[10, 20, 30, 40, 1, 1, 1, 99], &m, 1);
    assert_eq!(v, vec![12, 23, 34, 43]);
}

#[test]
fn biguint_aggregation_ignores_a_partial_share() {
    // two whole shares of two values, then two stray limbs
    let m = [100u64];
    let mut e = vec![1u64, 2];
    aggregate_e_shares_biguint(&mut e, &[10, 20, 5, 5, 7], &m, 1);
    assert_eq!(e, vec![16, 27]);
    // a limb past the whole values of party 0 is left as it was
    let mut v = vec![1u64, 2, 9];
    aggregate_value_shares_biguint(&mut v, &[10, 20, 30], &[0, 100], 2);
    assert_eq!(v, vec![11, 22, 9]);
}

#[test]
fn u128_and_biguint_aggregation_agree() {
    let m: u128 = (1u128 << 64) + 3;
    let p0 = pairs(&[1, m - 1, 7]);
    let others = pairs(&[5, 2, m - 7, 4, 4, 4]);
    let mut fast = p0.clone();
    aggregate_e_shares_u128(&mut fast, &others[..6], m);
    aggregate_e_shares_u128(&mut fast, &others[6..], m);
    let mut slow = p0.clone();
    aggregate_e_shares_biguint(&mut slow, &others, &pairs(&[m]), 2);
    assert_eq!(slow, fast);
    assert_eq!(unpair(&slow), vec![10, 5, 4]);
    let mut fast_v = p0.clone();
    aggregate_value_shares_u128(&mut fast_v, &others[..6], m);
    aggregate_value_shares_u128(&mut fast_v, &others[6..], m);
    let mut slow_v = p0.clone();
    aggregate_value_shares_biguint(&mut slow_v, &others, &pairs(&[m]), 2);
    assert_eq!(slow_v, fast_v);
}

#[test]
fn biguint_centering_and_masks() {
    let mut e = vec![10u64, 50, 99];
    center_e_shares_biguint(&mut e, &[50], &[100], 1);
    assert_eq!(e, vec![10, 50, 1]);
    let mut v = vec![10u64, 90];
    sub_e_add_random_biguint(&mut v, &[20, 5], &[5, 30], &[100], 1);
    assert_eq!(v, vec![95, 15]);
    let mut w = vec![4u64, 4];
    add_random_biguint(&mut w, &[96, 1], &[100], 1);
    assert_eq!(w, vec![0, 5]);
}

#[test]
fn biguint_scale_round_and_final_value() {
    let mut value = vec![5u64, 0];
    let mut e = vec![0u64];
    scale_round_mod_biguint(&mut value, &mut e, &[2], &[10], &[7], &[3], &[3], 1);
    assert_eq!(value, vec![4, 0]);
    assert_eq!(e, vec![0]);
    assert_eq!(final_value_to_commit_biguint(&[25], &[10]), 3);
    assert_eq!(final_value_to_commit_biguint(&[24], &[10]), 2);
    assert_eq!(final_value_to_commit_biguint(&[0, 1], &[3]), final_value_to_commit_u128(&[0, 1], 3));
}

#[test]
fn biguint_scaling_multiplies_before_dividing() {
    // value 2^64 scaled by (2^64 + 1) / 2^64 is 2^64 + 1
    let mut value = vec![0u64, 1, 0];
    let mut e = vec![0u64, 0];
    scale_round_mod_biguint(&mut value, &mut e, &[0, 0], &[0, 1], &[1, 1], &[7, 0], &[7, 0], 2);
    assert_eq!(value, vec![1, 1, 0]);
    // (2^64 + 1) mod 7 = 3
    assert_eq!(e, vec![3, 0]);
}

#[test]
fn scale_and_mask_share_paths_agree() {
    let share = vec![5u64, 0, 3, 0];
    let r_dp = vec![2u64, 0, 1, 0];
    let r_qp = vec![6u64, 0, 13, 0];
    let mut fast_v = share.clone();
    let mut fast_e = vec![0u64; 4];
    scale_and_mask_share(
        &mut fast_v, &mut fast_e, &r_dp, &r_qp, 2, Some(10), Some(14), Some(7), &[10], &[14],
        &[7], &[7, 0], &[14, 0],
    );
    assert_eq!(unpair(&fast_v), vec![13, 3]);
    assert_eq!(unpair(&fast_e), vec![2, 5]);
    let mut slow_v = share.clone();
    let mut slow_e = vec![0u64; 4];
    scale_and_mask_share(
        &mut slow_v, &mut slow_e, &r_dp, &r_qp, 2, None, Some(14), Some(7), &[10], &[14], &[7],
        &[7, 0], &[14, 0],
    );
    assert_eq!(slow_v, fast_v);
    assert_eq!(slow_e, fast_e);
}

#[test]
fn scale_and_mask_share_covers_the_common_values() {
    // the u128 path stops at the shortest slice: two values here
    let mut v = pairs(&[5, 3, 4]);
    let mut e = vec![0u64; 4];
    scale_and_mask_share(
        &mut v, &mut e, &pairs(&[2, 1, 0]), &pairs(&[6, 13, 0]), 2, Some(10), Some(14), Some(7),
        &[10], &[14], &[7], &[7, 0], &[14, 0],
    );
    assert_eq!(unpair(&v), vec![13, 3, 4]);
    assert_eq!(unpair(&e), vec![2, 5]);
    // the fallback switches the values with an error share beside them, and
    // masks every value with a q'-random beside it
    let mut v = vec![5u64, 3, 4];
    let mut e = vec![0u64; 2];
    scale_and_mask_share(
        &mut v, &mut e, &[2, 1, 0], &[6, 13, 1], 1, None, None, None, &[10], &[14], &[7], &[7],
        &[14],
    );
    assert_eq!(v, vec![13, 3, 5]);
    assert_eq!(e, vec![2, 5]);
    let mut v = vec![5u64, 3, 4];
    let mut e = vec![0u64; 3];
    scale_and_mask_share(
        &mut v, &mut e, &[2, 1, 0], &[6], 1, None, None, None, &[10], &[14], &[7], &[7], &[14],
    );
    assert_eq!(v, vec![13, 4, 6]);
    assert_eq!(e, vec![2, 5, 6]);
}

#[test]
fn scale_and_mask_share_paths_agree_on_short_masks() {
    // three values, but error shares and q'-randoms for two of them
    let share = pairs(&[5, 3, 4]);
    let r_dp = pairs(&[2, 1, 0]);
    let r_qp = pairs(&[6, 13]);
    let mut fast_v = share.clone();
    let mut fast_e = vec![0u64; 4];
    scale_and_mask_share(
        &mut fast_v, &mut fast_e, &r_dp, &r_qp, 2, Some(10), Some(14), Some(7), &[10], &[14],
        &[7], &[7, 0], &[14, 0],
    );
    let mut slow_v = share.clone();
    let mut slow_e = vec![0u64; 4];
    scale_and_mask_share(
        &mut slow_v, &mut slow_e, &r_dp, &r_qp, 2, None, None, None, &[10], &[14], &[7],
        &[7, 0], &[14, 0],
    );
    assert_eq!(slow_v, fast_v);
    assert_eq!(slow_e, fast_e);
    assert_eq!(unpair(&slow_v), vec![13, 3, 4]);
}

/// Schoolbook product in Z_q[X] / (X^n + 1).
fn negacyclic_mul(a: &[u32], b: &[u32], q: u32) -> Vec<u32> {
    let n = a.len();
    let q = q as u64;
    let mut out = vec![0u64; n];
    for i in (0..n).filter(|&i| a[i] != 0) {
        for j in (0..n).filter(|&j| b[j] != 0) {
            let prod = a[i] as u64 * b[j] as u64 % q;
            let k = i + j;
            if k < n {
                out[k] = (out[k] + prod) % q;
            } else {
                out[k - n] = (out[k - n] + q - prod) % q;
            }
        }
    }
    out.into_iter().map(|x| x as u32).collect()
}

#[test]
fn inv_v() {
    let rng = &mut rand::rng();

    let party_count = 4;

    let ssle_params = parameter_choice(party_count);

    let commit_poly_length = ssle_params.commit_poly_length;
    let ring_poly_length = ssle_params.ring_poly_length;

    let a: Vec<u32> = (0..commit_poly_length).map(|_| rng.random_range(0..Q)).collect();

    let mut v = vec![0u32; ring_poly_length];
    v.iter_mut().step_by(party_count).for_each(|x| *x = 1);

    let mut msg = vec![0u32; ring_poly_length];
    msg.iter_mut().zip(a.iter()).for_each(|(x, &y)| *x = y);

    let mut result = negacyclic_mul(&msg, &v, Q);

    let inv_two = ssle_core::CommitModulus.reduce_inv(2).unwrap();
    let factor = ShoupFactor::new(inv_two, Q);
    let mut scratch = vec![0u32; ring_poly_length];
    div_v_inplace(&mut result, &mut scratch, party_count, factor);

    let (x, y) = result.split_at_mut(commit_poly_length);
    let mut x = x.to_vec();
    for (i, chunk) in y.chunks_exact(commit_poly_length).enumerate() {
        if i % 2 == 0 {
            ssle_core::poly::sub_element_wise_assign(&mut x, chunk, Q);
        } else {
            ssle_core::poly::add_element_wise_assign(&mut x, chunk, Q);
        }
    }

    assert_eq!(x, a);
}

#[test]
fn div_v_recovers_the_padded_polynomial() {
    let party_count = 4;
    let ring_poly_length = 16;
    let a: Vec<u32> = vec![17, 12288, 4096, 5];
    let mut v = vec![0u32; ring_poly_length];
    v.iter_mut().step_by(party_count).for_each(|x| *x = 1);
    let mut msg = vec![0u32; ring_poly_length];
    msg[..a.len()].copy_from_slice(&a);
    let mut result = negacyclic_mul(&msg, &v, Q);
    let mut scratch = vec![0u32; ring_poly_length];
    div_v_inplace(&mut result, &mut scratch, party_count, ShoupFactor::new(6145, Q));
    assert_eq!(result, msg);
}

#[test]
fn div_v_of_a_single_coefficient() {
    // (1 - X^2) / 2 applied to 2: 1 - X^2
    let mut p = vec![2u32, 0, 0, 0];
    let mut scratch = vec![0u32; 4];
    div_v_inplace(&mut p, &mut scratch, 2, ShoupFactor::new(6145, Q));
    assert_eq!(scratch, vec![0, 0, 2, 0]);
    assert_eq!(p, vec![1, 0, Q - 1, 0]);
}

#[test]
fn decode_commit_without_non_zero_chunk_leaves_output() {
    let fc = vec![0u32; 16];
    let mut out = vec![9u32; 4];
    decode_commit(&fc, &mut out, 2, 8);
    assert_eq!(out, vec![9, 9, 9, 9]);
}

#[test]
fn decode_commit_single_chunk() {
    let mut fc = vec![0u32; 16];
    fc[2..4].copy_from_slice(&[3, 4]);
    fc[10..12].copy_from_slice(&[5, 6]);
    let mut out = vec![0u32; 4];
    decode_commit(&fc, &mut out, 2, 8);
    assert_eq!(out, vec![3, 4, 5, 6]);
}

#[test]
fn decode_commit_adjacent_chunks_subtract() {
    let mut fc = vec![0u32; 16];
    fc[2..6].copy_from_slice(&[3, 4, 1, 5]);
    fc[10..14].copy_from_slice(&[5, 6, 2, 2]);
    let mut out = vec![0u32; 4];
    decode_commit(&fc, &mut out, 2, 8);
    assert_eq!(out, vec![2, Q - 1, 3, 4]);
}

#[test]
fn decode_commit_distant_chunks_add() {
    let mut fc = vec![0u32; 16];
    fc[0..2].copy_from_slice(&[3, 4]);
    fc[4..6].copy_from_slice(&[1, Q - 4]);
    fc[8..10].copy_from_slice(&[5, 6]);
    fc[12..14].copy_from_slice(&[2, 2]);
    let mut out = vec![0u32; 4];
    decode_commit(&fc, &mut out, 2, 8);
    assert_eq!(out, vec![4, 0, 7, 8]);
}

#[test]
fn decode_commit_uses_only_the_first_two_chunks() {
    let mut fc = vec![0u32; 16];
    fc[0] = 1;
    fc[2] = 2;
    fc[4] = 100;
    let mut out = vec![0u32; 4];
    decode_commit(&fc, &mut out, 2, 8);
    assert_eq!(out, vec![Q - 1, 0, 0, 0]);
}

#[test]
fn encode_commits_are_summed_per_modulus() {
    let ring = 2;
    let moduli = [7u64, 11];
    let rns_poly_len = 4;
    let g = 8;
    let parties = 2;
    let all: Vec<u64> = (0..parties)
        .flat_map(|p| (0..2 * g).map(move |x| (3 * x + p + 5) as u64))
        .collect();
    let mut fin: Vec<u64> = (0..2 * g as u64).collect();
    aggregate_encode_commits(&all, &mut fin, g, ring, rns_poly_len, &moduli);
    for x in 0..2 * g {
        let m = moduli[(x % g % rns_poly_len) / ring];
        assert_eq!(fin[x], (7 * x as u64 + 11) % m, "x = {x}");
    }
}

#[test]
fn party_zero_opens_the_shares() {
    let mut p0_e = pairs(&[10, 60]);
    let other_e = pairs(&[20, 30, 25, 0]);
    let mut p0_v = pairs(&[500, 700]);
    let other_v = pairs(&[100, 200, 300, 950]);
    let r0 = pairs(&[7, 3]);
    let mut final_commit = vec![9u32, 9, 9];
    open_shares_u128(&mut p0_e, &other_e, &mut p0_v, &other_v, &r0, 4, 100, 1000, &mut final_commit);
    // errors sum to 55 and 90; 55 is in the upper half and becomes 45
    assert_eq!(unpair(&p0_e), vec![45, 10]);
    // 500 - 45 + 7 + 100 + 300 = 862; 700 - 10 + 3 + 200 + 950 = 1843 = 843 mod 1000
    assert_eq!(unpair(&p0_v), vec![862, 843]);
    assert_eq!(final_commit, vec![9, 8, 9]);
}

#[test]
fn party_zero_alone_opens_its_own_share() {
    let mut p0_e = pairs(&[30]);
    let mut p0_v = pairs(&[250]);
    let mut final_commit = vec![0u32];
    open_shares_u128(&mut p0_e, &[], &mut p0_v, &[], &pairs(&[0]), 2, 100, 1000, &mut final_commit);
    assert_eq!(unpair(&p0_v), vec![220]);
    assert_eq!(final_commit, vec![2]);
}

#[test]
fn div_v_folds_every_whole_chunk() {
    let factor = ShoupFactor::new(6145, Q);
    let mut commit = vec![2u32, 0, 0, 0, 0, 4, 0, 0, 7];
    let mut scratch = vec![0u32; 4];
    ssle_core::fold::div_v_chunks(&mut commit, &mut scratch, 2, factor);
    // each chunk of four becomes (p - p · X^2) / 2
    assert_eq!(commit, vec![1, 0, Q - 1, 0, 0, 2, 0, Q - 2, 7]);
}

/// Three parties mask their shares and party 0 opens them; with q = q' the
/// scaling keeps every value, Δ' = 1000 and p = 7.
fn open_three_parties(values: [u128; 3]) -> u32 {
    let (q, qp, dp) = (7000u128, 7000u128, 1000u128);
    // masks: party 0 holds 2, party 1 holds -3, party 2 holds 5; they sum to 4
    let r_dp = [2u128, 997, 5];
    let r_qp = [2u128, 6997, 5];
    let mut v_shares = Vec::new();
    let mut e_shares = Vec::new();
    for i in 0..3 {
        let mut v = pairs(&[values[i]]);
        let mut e = vec![0u64; 2];
        scale_and_mask_share(
            &mut v, &mut e, &pairs(&[r_dp[i]]), &pairs(&[r_qp[i]]), 2, Some(q), Some(qp), Some(dp),
            &[7000], &[7000], &[1000], &[1000, 0], &[7000, 0],
        );
        v_shares.push(v);
        e_shares.push(e);
    }
    let mut p0_e = e_shares[0].clone();
    let mut p0_v = v_shares[0].clone();
    let other_e: Vec<u64> = e_shares[1..].concat();
    let other_v: Vec<u64> = v_shares[1..].concat();
    let mut final_commit = vec![0u32];
    open_shares_u128(&mut p0_e, &other_e, &mut p0_v, &other_v, &pairs(&[r_qp[0]]), 2, dp, qp, &mut final_commit);
    final_commit[0]
}

#[test]
fn opening_recovers_the_message() {
    // values sum to 3 · Δ' + 5
    assert_eq!(open_three_parties([1000, 2000, 5]) % 7, 3);
    // values sum to 3 · Δ' - 20
    assert_eq!(open_three_parties([1000, 2000, 6980]) % 7, 3);
    // values sum to 0 · Δ' - 20: the opened value wraps below q'
    assert_eq!(open_three_parties([10, 6960, 10]) % 7, 0);
}

#[test]
fn decode_and_fold_under_another_commit_modulus() {
    let q = 18433u32;
    let mut fc = vec![0u32; 16];
    fc[2..6].copy_from_slice(&[3, 4, 1, 5]);
    fc[10..14].copy_from_slice(&[5, 6, 2, 2]);
    let mut out = vec![0u32; 4];
    ssle_core::protocol::decode_commit_modulo(&fc, &mut out, 2, 8, q);
    assert_eq!(out, vec![2, q - 1, 3, 4]);
    let mut p = vec![2u32, 0, 0, 0];
    let mut scratch = vec![0u32; 4];
    div_v_inplace(&mut p, &mut scratch, 2, ShoupFactor::new(9217, q));
    assert_eq!(p, vec![1, 0, q - 1, 0]);
}

#[test]
fn biguint_scaling_with_a_short_delta_prime() {
    // Δ' = 3 given as one limb for two-limb values
    let mut value = vec![5u64, 0];
    let mut e = vec![0u64, 0];
    scale_round_mod_biguint(&mut value, &mut e, &[2, 0], &[10], &[7], &[3], &[3], 2);
    assert_eq!(value, vec![4, 0]);
    assert_eq!(e, vec![0, 0]);
}
