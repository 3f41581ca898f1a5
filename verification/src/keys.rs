//! Key material arithmetic: the initial accumulator, the rotation residues of
//! the per-party RGSW monomials, additive secret-key shares, and the elected
//! leader.
use crate::limbs::lemma_add_mod;
use vstd::arithmetic::div_mod::*;
use vstd::arithmetic::mul::*;
use vstd::prelude::*;

verus! {

/// Key generation for the protocol: the master secret key, the master public
/// key and the coefficient-expansion key of one parameter set.
pub struct KeyGen;

/// Writes the initial accumulator's B part: in every polynomial block of
/// `poly_length` residues (one block per entry of `delta_mod_q`), the
/// coefficients at multiples of `party_count` are set to that block's `Δ mod q`.
/// Everything else keeps its value.
pub fn fill_init_acc(b: &mut [u64], poly_length: usize, delta_mod_q: &[u64], party_count: usize)
    requires
        poly_length > 0,
        party_count > 0,
    ensures
        final(b).len() == old(b).len(),
        forall|k: int|
            0 <= k < old(b).len() ==> final(b)@[k] == (if k < init_acc_span(
                old(b).len() as nat,
                poly_length as nat,
                delta_mod_q.len() as nat,
            ) && (k % poly_length as int) % party_count as int == 0 {
                delta_mod_q@[k / poly_length as int]
            } else {
                old(b)@[k]
            }),
{
    let blocks = if b.len() / poly_length <= delta_mod_q.len() {
        b.len() / poly_length
    } else {
        delta_mod_q.len()
    };
    let ghost b0 = b@;
    proof {
        lemma_fundamental_div_mod(b.len() as int, poly_length as int);
        lemma_mul_inequality(blocks as int, (b.len() / poly_length) as int, poly_length as int);
        lemma_mul_is_commutative(poly_length as int, (b.len() / poly_length) as int);
    }
    let span = blocks * poly_length;
    let mut k: usize = 0;
    while k < span
        invariant
            span == init_acc_span(b0.len(), poly_length as nat, delta_mod_q.len() as nat),
            span == blocks * poly_length,
            blocks <= delta_mod_q.len(),
            span <= b0.len(),
            poly_length > 0,
            party_count > 0,
            b.len() == b0.len(),
            k <= span,
            forall|t: int|
                0 <= t < k ==> b@[t] == (if (t % poly_length as int) % party_count as int == 0 {
                    delta_mod_q@[t / poly_length as int]
                } else {
                    b0[t]
                }),
            forall|t: int| k <= t < b0.len() ==> b@[t] == b0[t],
        decreases span - k,
    {
        let c = k % poly_length;
        if c % party_count == 0 {
            proof {
                lemma_div_is_ordered(k as int, span as int, poly_length as int);
                lemma_div_multiples_vanish(blocks as int, poly_length as int);
                lemma_mul_is_commutative(blocks as int, poly_length as int);
                if k / poly_length == blocks {
                    lemma_fundamental_div_mod(k as int, poly_length as int);
                    lemma_mul_is_commutative(poly_length as int, blocks as int);
                }
            }
            b[k] = delta_mod_q[k / poly_length];
        }
        k = k + 1;
    }
}

/// How many residues of the B part the initial accumulator writes: whole
/// blocks of `poly_length`, one per `Δ mod q` value.
pub open spec fn init_acc_span(b_len: nat, poly_length: nat, deltas: nat) -> nat {
    if b_len / poly_length <= deltas {
        (b_len / poly_length) * poly_length
    } else {
        deltas * poly_length
    }
}

/// The RNS residues and reduced degree that encode the monomial `X^degree`
/// of `Z_q[X] / (X^n + 1)`, `n = poly_length`: `+X^degree` (residues `1`) for
/// `degree < n`, and `-X^{degree - n}` (residues `q_i - 1`) otherwise, since
/// `X^n = -1`.
pub fn rotation_residues(degree: usize, poly_length: usize, moduli_minus_one: &[u64]) -> (r: (
    Vec<u64>,
    usize,
))
    requires
        degree < 2 * poly_length,
    ensures
        r.0.len() == moduli_minus_one.len(),
        degree < poly_length ==> r.1 == degree && forall|i: int|
            0 <= i < moduli_minus_one.len() ==> r.0@[i] == 1,
        degree >= poly_length ==> r.1 == degree - poly_length && r.0@ == moduli_minus_one@,
{
    let n = moduli_minus_one.len();
    let mut residues: Vec<u64> = Vec::new();
    if degree < poly_length {
        let mut i: usize = 0;
        while i < n
            invariant
                n == moduli_minus_one.len(),
                i <= n,
                residues.len() == i,
                forall|j: int| 0 <= j < i ==> residues@[j] == 1,
            decreases n - i,
        {
            residues.push(1);
            i = i + 1;
        }
        (residues, degree)
    } else {
        let mut i: usize = 0;
        while i < n
            invariant
                n == moduli_minus_one.len(),
                i <= n,
                residues@ == moduli_minus_one@.take(i as int),
            decreases n - i,
        {
            residues.push(moduli_minus_one[i]);
            i = i + 1;
            assert(residues@ =~= moduli_minus_one@.take(i as int));
        }
        assert(moduli_minus_one@.take(n as int) =~= moduli_minus_one@);
        (residues, degree - poly_length)
    }
}

/// The cipher modulus of position `k` of a CRT secret key: every CRT
/// polynomial is one block of `poly_length` residues per modulus.
pub open spec fn crt_modulus_at(moduli: Seq<u64>, poly_length: nat, k: int) -> nat {
    moduli[(k % (moduli.len() * poly_length) as int) / poly_length as int] as nat
}

/// The sum of position `k` over the first `n` shares.
pub open spec fn shares_sum(shares: Seq<Vec<u64>>, k: int, n: nat) -> nat
    decreases n,
{
    if n == 0 {
        0
    } else {
        shares_sum(shares, k, (n - 1) as nat) + shares[n - 1]@[k] as nat
    }
}

proof fn lemma_crt_index(k: int, n: int, moduli_len: int)
    requires
        k >= 0,
        n > 0,
        moduli_len > 0,
    ensures
        0 <= (k % (moduli_len * n)) / n < moduli_len,
{
    lemma_mul_strictly_positive(moduli_len, n);
    lemma_mod_bound(k, moduli_len * n);
    lemma_div_pos_is_pos(k % (moduli_len * n), n);
    lemma_fundamental_div_mod(k % (moduli_len * n), n);
    lemma_mod_bound(k % (moduli_len * n), n);
    assert((k % (moduli_len * n)) / n < moduli_len) by (nonlinear_arith)
        requires
            k % (moduli_len * n) == n * ((k % (moduli_len * n)) / n) + (k % (moduli_len * n)) % n,
            0 <= (k % (moduli_len * n)) % n,
            k % (moduli_len * n) < moduli_len * n,
            n > 0,
    ;
}

/// The last additive share of a CRT secret key: `master` minus every other
/// share, residue by residue modulo its cipher modulus, so that all the
/// shares together sum to the master key.
pub fn last_secret_key_share(
    master: &[u64],
    shares: &[Vec<u64>],
    poly_length: usize,
    moduli: &[u64],
) -> (r: Vec<u64>)
    requires
        poly_length > 0,
        moduli.len() > 0,
        moduli.len() * poly_length <= usize::MAX,
        forall|i: int| 0 <= i < moduli.len() ==> moduli@[i] > 0,
        forall|s: int| 0 <= s < shares.len() ==> shares@[s].len() == master.len(),
    ensures
        r.len() == master.len(),
        forall|k: int|
            0 <= k < master.len() ==> {
                let m = crt_modulus_at(moduli@, poly_length as nat, k) as int;
                &&& #[trigger] r@[k] < m
                &&& (r@[k] + shares_sum(shares@, k, shares.len() as nat)) % m == master@[k] as int % m
            },
{
    let n = master.len();
    let ml = moduli.len();
    proof {
        lemma_mul_strictly_positive(ml as int, poly_length as int);
    }
    let block = ml * poly_length;
    let mut r: Vec<u64> = Vec::new();
    let mut k: usize = 0;
    while k < n
        invariant
            n == master.len(),
            ml == moduli.len(),
            ml > 0,
            poly_length > 0,
            block == ml * poly_length,
            block > 0,
            forall|i: int| 0 <= i < moduli.len() ==> moduli@[i] > 0,
            forall|s: int| 0 <= s < shares.len() ==> shares@[s].len() == master.len(),
            k <= n,
            r.len() == k,
            forall|t: int|
                0 <= t < k ==> {
                    let m = crt_modulus_at(moduli@, poly_length as nat, t) as int;
                    &&& #[trigger] r@[t] < m
                    &&& (r@[t] + shares_sum(shares@, t, shares.len() as nat)) % m == master@[t] as int % m
                },
        decreases n - k,
    {
        proof {
            lemma_crt_index(k as int, poly_length as int, ml as int);
        }
        let m = moduli[(k % block) / poly_length];
        let ghost mi = m as int;
        let mut acc: u64 = master[k] % m;
        let mut s: usize = 0;
        while s < shares.len()
            invariant
                n == master.len(),
                k < n,
                m > 0,
                mi == m,
                forall|t: int| 0 <= t < shares.len() ==> shares@[t].len() == master.len(),
                s <= shares.len(),
                acc < m,
                acc == (master@[k as int] - shares_sum(shares@, k as int, s as nat)) % mi,
            decreases shares.len() - s,
        {
            let x = shares[s][k] % m;
            proof {
                lemma_add_mod(
                    master@[k as int] - shares_sum(shares@, k as int, s as nat),
                    shares@[s as int]@[k as int] as int,
                    mi,
                );
                lemma_mod_add_multiples_vanish(acc - x, mi);
                assert(shares_sum(shares@, k as int, (s + 1) as nat) == shares_sum(
                    shares@,
                    k as int,
                    s as nat,
                ) + shares@[s as int]@[k as int]);
            }
            acc = if acc >= x {
                acc - x
            } else {
                acc + (m - x)
            };
            proof {
                lemma_small_mod(acc as nat, m as nat);
            }
            s = s + 1;
        }
        proof {
            let tot = shares_sum(shares@, k as int, shares.len() as nat);
            lemma_add_mod(master@[k as int] - tot, tot as int, mi);
        }
        r.push(acc);
        k = k + 1;
    }
    r
}

/// The elected leader: the sum of every party's secret rotation degree,
/// modulo the number of parties.
pub open spec fn degree_sum(degrees: Seq<usize>, n: nat) -> nat
    decreases n,
{
    if n == 0 {
        0
    } else {
        degree_sum(degrees, (n - 1) as nat) + degrees[n - 1] as nat
    }
}

/// The index of the elected leader: `Σ degrees mod party_count`.
pub fn leader_index(degrees: &[usize], party_count: usize) -> (r: usize)
    requires
        party_count > 0,
        degree_sum(degrees@, degrees.len() as nat) <= usize::MAX,
    ensures
        r == degree_sum(degrees@, degrees.len() as nat) % (party_count as nat),
        r < party_count,
{
    let mut sum: usize = 0;
    let mut i: usize = 0;
    proof {
        lemma_degree_sum_monotone(degrees@, 0, degrees.len() as nat);
    }
    while i < degrees.len()
        invariant
            i <= degrees.len(),
            sum == degree_sum(degrees@, i as nat),
            degree_sum(degrees@, degrees.len() as nat) <= usize::MAX,
        decreases degrees.len() - i,
    {
        proof {
            lemma_degree_sum_monotone(degrees@, (i + 1) as nat, degrees.len() as nat);
        }
        sum = sum + degrees[i];
        i = i + 1;
    }
    sum % party_count
}

proof fn lemma_degree_sum_monotone(degrees: Seq<usize>, a: nat, b: nat)
    requires
        a <= b <= degrees.len(),
    ensures
        degree_sum(degrees, a) <= degree_sum(degrees, b),
    decreases b - a,
{
    if a < b {
        lemma_degree_sum_monotone(degrees, a, (b - 1) as nat);
    }
}

} // verus!
