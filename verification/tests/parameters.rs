use ssle_core::parameters::{
    commit_modulus_value, parameter_choice, reduce_inv_modulo, BasisChoice, ShoupFactor,
};
use ssle_core::CommitModulus;

#[test]
fn commit_modulus_values() {
    assert_eq!(CommitModulus.value_unchecked(), 12289);
    assert_eq!(CommitModulus.minus_one(), 12288);
}

#[test]
fn reduce_inv_finds_the_inverse() {
    assert_eq!(CommitModulus.reduce_inv(2), Some(6145));
    assert_eq!(CommitModulus.reduce_inv(1), Some(1));
    let inv3 = CommitModulus.reduce_inv(3).unwrap();
    assert_eq!((3 * inv3 as u64) % 12289, 1);
    assert_eq!(CommitModulus.reduce_inv(0), None);
    assert_eq!(CommitModulus.reduce_inv(12289), None);
}

#[test]
fn shoup_multiplication_matches_plain_reduction() {
    let f = ShoupFactor::new(6145, 12289);
    assert_eq!(f.value(), 6145);
    for x in [0u32, 1, 2, 3, 12288, 12289, 40000, u32::MAX] {
        assert_eq!(f.mul_reduce(x) as u64, (x as u64 * 6145) % 12289);
    }
    let g = ShoupFactor::new(4294967290, 4294967291);
    for x in [0u32, 1, 7, 4294967290, u32::MAX] {
        assert_eq!(g.mul_reduce(x) as u64, (x as u64 * 4294967290) % 4294967291);
    }
}

#[test]
fn parameters_for_few_parties() {
    let p = parameter_choice(4);
    assert_eq!(p.commit_poly_length, 512);
    assert_eq!(p.ring_dimension, 1);
    assert_eq!(p.ring_poly_length, 4096);
    assert_eq!(p.rns_moduli, vec![1125899906826241, 1125899906629633]);
    assert_eq!(p.ggsw_basis, BasisChoice { log_basis: 23, count: 3 });
    assert_eq!(p.expand_basis, BasisChoice { log_basis: 25, count: 3 });
    let p = parameter_choice(2);
    assert_eq!(p.expand_basis, BasisChoice { log_basis: 33, count: 2 });
}

#[test]
fn parameters_for_many_parties() {
    let p = parameter_choice(2048);
    assert_eq!(p.commit_poly_length, 1024);
    assert_eq!(p.rns_moduli, vec![137438822401, 137438814209, 137438773249]);
    assert_eq!(p.ggsw_basis, BasisChoice { log_basis: 13, count: 7 });
    assert_eq!(p.expand_basis, BasisChoice { log_basis: 15, count: 6 });
    let p = parameter_choice(256);
    assert_eq!(p.rns_moduli, vec![137438822401, 68719403009, 68719230977]);
    assert_eq!(p.ggsw_basis, BasisChoice { log_basis: 17, count: 5 });
    assert_eq!(p.expand_basis, BasisChoice { log_basis: 21, count: 4 });
}

#[test]
fn commit_moduli_of_each_build() {
    assert_eq!(commit_modulus_value(false, false), 12289);
    assert_eq!(commit_modulus_value(true, false), 18433);
    assert_eq!(commit_modulus_value(true, true), 40961);
    assert_eq!(commit_modulus_value(false, true), 40961);
    assert_eq!(reduce_inv_modulo(2, 18433), Some(9217));
    assert_eq!(reduce_inv_modulo(2, 40961), Some(20481));
    assert_eq!(reduce_inv_modulo(18433, 18433), None);
    let f = ShoupFactor::new(9217, 18433);
    assert_eq!(f.modulus(), 18433);
    assert_eq!(f.mul_reduce(2), 1);
}

#[test]
fn every_parameter_set_fits_two_limbs() {
    for party_count in [2usize, 4, 8, 16, 32, 64, 128, 256, 512, 1024, 2048] {
        let moduli = parameter_choice(party_count).rns_moduli;
        let q = moduli.iter().try_fold(1u128, |acc, &m| acc.checked_mul(m as u128)).unwrap();
        let p = 12289u128;
        let q_prime = q.div_ceil(p) * p;
        assert!(q_prime >= q && q_prime - q < p);
        assert!(q_prime / p < q_prime);
    }
}
