use ssle_core::keys::{fill_init_acc, last_secret_key_share, leader_index, rotation_residues};

#[test]
fn init_acc_writes_delta_at_multiples_of_the_party_count() {
    let mut b: Vec<u64> = (1..=9).collect();
    fill_init_acc(&mut b, 4, &[100, 200], 2);
    assert_eq!(b, vec![100, 2, 100, 4, 200, 6, 200, 8, 9]);
    let mut b = vec![0u64; 8];
    fill_init_acc(&mut b, 4, &[100], 4);
    assert_eq!(b, vec![100, 0, 0, 0, 0, 0, 0, 0]);
}

#[test]
fn rotation_residues_for_both_halves() {
    assert_eq!(rotation_residues(3, 8, &[6, 10]), (vec![1, 1], 3));
    assert_eq!(rotation_residues(10, 8, &[6, 10]), (vec![6, 10], 2));
    assert_eq!(rotation_residues(8, 8, &[6, 10]), (vec![6, 10], 0));
}

#[test]
fn key_shares_sum_to_the_master_key() {
    let moduli = [7u64, 11];
    let poly_length = 2;
    let master = vec![3u64, 6, 10, 0];
    let shares = vec![vec![5u64, 6, 9, 10], vec![6u64, 1, 4, 3]];
    let last = last_secret_key_share(&master, &shares, poly_length, &moduli);
    for k in 0..master.len() {
        let m = moduli[(k % 4) / poly_length];
        assert!(last[k] < m);
        let total: u64 = last[k] + shares.iter().map(|s| s[k]).sum::<u64>();
        assert_eq!(total % m, master[k] % m, "k = {k}");
    }
    assert_eq!(last, vec![6, 6, 8, 9]);
}

#[test]
fn key_share_without_other_shares_is_the_reduced_master() {
    let last = last_secret_key_share(&[15, 3], &[], 1, &[7]);
    assert_eq!(last, vec![1, 3]);
}

#[test]
fn leader_is_the_degree_sum_modulo_the_party_count() {
    assert_eq!(leader_index(&[3, 5, 9], 4), 1);
    assert_eq!(leader_index(&[], 4), 0);
    assert_eq!(leader_index(&[8191, 8191], 128), 16382 % 128);
}
