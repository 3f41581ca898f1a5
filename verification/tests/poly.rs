use rand::RngExt;
use ssle_core::parameters::{parameter_choice, ShoupFactor};
use ssle_core::CommitModulus;
use ssle_core::poly::{
    add_element_wise_assign, is_zero, mul_factor_assign, mul_monomial_assign,
    sub_element_wise_assign,
};

const Q: u32 = 12289;

/// Schoolbook product in Z_q[X] / (X^n + 1).
fn negacyclic_mul(a: &[u32], b: &[u32], q: u32) -> Vec<u32> {
    let n = a.len();
    let q = q as u64;
    let mut out = vec![0u64; n];
    for i in 0..n {
        for j in 0..n {
            let prod = a[i] as u64 * b[j] as u64 % q;
            let k = i + j;
            if k < n {
                out[k] = (out[k] + prod) % q;
            } else {
                out[k - n] = (out[k - n] + q - prod) % q;
            }
        }
    }
    out.into_iter().map(|x| x as u32).collect()
}

fn sample_poly(n: usize, seed: u64) -> Vec<u32> {
    let mut x = seed;
    (0..n)
        .map(|_| {
            x = x.wrapping_mul(6364136223846793005).wrapping_add(1442695040888963407);
            ((x >> 33) % Q as u64) as u32
        })
        .collect()
}

#[test]
fn element_wise_add_and_sub() {
    let mut a = vec![1u32, 12288, 5, 7];
    add_element_wise_assign(&mut a, &[12288, 2, 0], Q);
    assert_eq!(a, vec![0, 1, 5, 7]);
    sub_element_wise_assign(&mut a, &[1, 2], Q);
    assert_eq!(a, vec![12288, 12288, 5, 7]);
}

#[test]
fn add_then_sub_restores_residues() {
    let a = sample_poly(32, 7);
    let b = sample_poly(32, 11);
    let mut c = a.clone();
    add_element_wise_assign(&mut c, &b, Q);
    sub_element_wise_assign(&mut c, &b, Q);
    assert_eq!(c, a);
}

#[test]
fn zero_check() {
    assert!(is_zero(&[]));
    assert!(is_zero(&[0, 0, 0]));
    assert!(!is_zero(&[0, 0, 1]));
}

#[test]
fn monomial_multiplication_wraps_negacyclically() {
    let mut p = vec![1u32, 2, 3, 4];
    mul_monomial_assign(&mut p, 1, Q);
    assert_eq!(p, vec![Q - 4, 1, 2, 3]);
    let mut p = vec![1u32, 2, 3, 4];
    mul_monomial_assign(&mut p, 4, Q);
    assert_eq!(p, vec![Q - 1, Q - 2, Q - 3, Q - 4]);
    let mut p = vec![1u32, 2, 3, 4];
    mul_monomial_assign(&mut p, 8, Q);
    assert_eq!(p, vec![1, 2, 3, 4]);
    let mut p = vec![1u32, 0, 0, 0];
    mul_monomial_assign(&mut p, 23, Q);
    assert_eq!(p, vec![0, 0, 0, Q - 1]);
}

#[test]
fn monomial_multiplications_compose() {
    let a = sample_poly(16, 3);
    let mut twice = a.clone();
    mul_monomial_assign(&mut twice, 5, Q);
    mul_monomial_assign(&mut twice, 22, Q);
    let mut once = a.clone();
    mul_monomial_assign(&mut once, 27, Q);
    assert_eq!(twice, once);
}

#[test]
fn poly_mul_monomial() {
    let rng = &mut rand::rng();

    let party_count = 4;

    let poly_length = parameter_choice(party_count).commit_poly_length;

    let mut a: Vec<u32> = (0..poly_length).map(|_| rng.random_range(0..Q)).collect();
    let mut v = vec![0u32; poly_length];

    let mut degree = rng.random_range(0..poly_length);
    if rng.random() {
        v[degree] = 1;
    } else {
        v[degree] = CommitModulus.minus_one();
        degree += poly_length;
    }

    let msg = negacyclic_mul(&a, &v, Q);

    mul_monomial_assign(&mut a, degree, Q);

    assert_eq!(a, msg);
}

#[test]
fn mul_monomial_matches_the_product_with_a_monomial() {
    let n = 16;
    let a = sample_poly(n, 42);
    for degree in [0usize, 3, 15] {
        let mut v = vec![0u32; n];
        v[degree] = 1;
        let msg = negacyclic_mul(&a, &v, Q);
        let mut b = a.clone();
        mul_monomial_assign(&mut b, degree, Q);
        assert_eq!(b, msg);
        let mut v = vec![0u32; n];
        v[degree] = Q - 1;
        let msg = negacyclic_mul(&a, &v, Q);
        let mut b = a.clone();
        mul_monomial_assign(&mut b, degree + n, Q);
        assert_eq!(b, msg);
    }
}

#[test]
fn factor_multiplication() {
    let mut p = vec![0u32, 1, 2, 12288];
    mul_factor_assign(&mut p, ShoupFactor::new(6145, Q));
    assert_eq!(p, vec![0, 6145, 1, 6144]);
}
