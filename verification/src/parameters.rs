//! The commit modulus, Shoup factors for it, and the parameter sets the
//! protocol uses for each supported number of parties.
use vstd::arithmetic::div_mod::*;
use vstd::arithmetic::mul::*;
use vstd::prelude::*;

verus! {

/// Coefficient type of commit polynomials.
pub type CommitValueT = u32;

/// Residue type of CRT (RNS) polynomials.
pub type CrtValueT = u64;

/// The commit modulus, a prime with `2 · 2048 | q - 1`.
pub const COMMIT_MODULUS: u32 = 12289;

/// The plaintext scaling modulus of the ring parameters.
pub const GAMMA: u64 = 2056193;

/// The commit modulus as a number.
pub open spec fn commit_q() -> nat {
    12289
}

/// The commit modulus of the parameter sets for more than 32 parties.
pub const COMMIT_MODULUS_GT32: u32 = 18433;

/// The commit modulus of the parameter sets for more than 128 parties.
pub const COMMIT_MODULUS_GT128: u32 = 40961;

/// The commit modulus a build uses: 40961 with the `gt128` parameter sets,
/// else 18433 with the `gt32` ones, else 12289.
pub fn commit_modulus_value(gt32: bool, gt128: bool) -> (r: u32)
    ensures
        r == (if gt128 {
            COMMIT_MODULUS_GT128
        } else if gt32 {
            COMMIT_MODULUS_GT32
        } else {
            COMMIT_MODULUS
        }),
{
    if gt128 {
        COMMIT_MODULUS_GT128
    } else if gt32 {
        COMMIT_MODULUS_GT32
    } else {
        COMMIT_MODULUS
    }
}

/// Whether `v` is an inverse of `x` modulo `q`.
pub open spec fn is_inverse_mod(x: int, v: int, q: int) -> bool {
    (x * v) % q == 1
}

/// Whether `v` is an inverse of `x` modulo the commit modulus.
pub open spec fn is_commit_inverse(x: int, v: int) -> bool {
    is_inverse_mod(x, v, commit_q() as int)
}

/// The inverse of `x` modulo `q` in `[0, q)`, when one exists.
pub fn reduce_inv_modulo(x: u32, q: u32) -> (r: Option<u32>)
    requires
        q > 0,
    ensures
        r matches Some(v) ==> v < q && is_inverse_mod(x as int, v as int, q as int),
        r is None ==> forall|v: int| 0 <= v < q ==> !#[trigger] is_inverse_mod(x as int, v, q as int),
{
    let qq: u64 = q as u64;
    let xr: u64 = x as u64 % qq;
    let mut v: u64 = 0;
    proof {
        lemma_mod_bound(x as int, qq as int);
    }
    while v < qq
        invariant
            qq == q,
            q > 0,
            xr < qq,
            xr == x as nat % (q as nat),
            v <= qq,
            forall|w: int| 0 <= w < v ==> !#[trigger] is_inverse_mod(x as int, w, q as int),
        decreases qq - v,
    {
        proof {
            lemma_mul_mod_noop_left(x as int, v as int, qq as int);
            lemma_mul_upper_bound(xr as int, (qq - 1) as int, v as int, (qq - 1) as int);
            assert((qq - 1) * (qq - 1) <= u64::MAX) by (nonlinear_arith)
                requires
                    0 < qq <= 0xffff_ffff,
            ;
        }
        if (xr * v) % qq == 1 {
            return Some(v as u32);
        }
        v = v + 1;
    }
    None
}

/// The modulus commits are encrypted under.
#[derive(Clone, Copy)]
pub struct CommitModulus;

impl CommitModulus {
    /// The modulus value.
    pub fn value_unchecked(&self) -> (r: u32)
        ensures
            r == commit_q(),
    {
        COMMIT_MODULUS
    }

    /// `q - 1`, the representative of `-1`.
    pub fn minus_one(&self) -> (r: u32)
        ensures
            r == commit_q() - 1,
    {
        COMMIT_MODULUS - 1
    }

    /// The inverse of `x` modulo the commit modulus, when one exists.
    pub fn reduce_inv(&self, x: u32) -> (r: Option<u32>)
        ensures
            r matches Some(v) ==> v < commit_q() && is_commit_inverse(x as int, v as int),
            r is None ==> forall|v: int| 0 <= v < commit_q() ==> !#[trigger] is_commit_inverse(x as int, v),
    {
        let r = reduce_inv_modulo(x, COMMIT_MODULUS);
        proof {
            if r is None {
                assert forall|v: int| 0 <= v < commit_q() implies !#[trigger] is_commit_inverse(
                    x as int,
                    v,
                ) by {
                    assert(!is_inverse_mod(x as int, v, commit_q() as int));
                }
            }
        }
        r
    }
}

/// A multiplier `value` with its precomputed Shoup quotient
/// `⌊value · 2^32 / modulus⌋`, for fast multiplication modulo `modulus`.
#[derive(Clone, Copy)]
pub struct ShoupFactor {
    value: u32,
    quotient: u32,
    modulus: u32,
}

impl ShoupFactor {
    /// Well-formedness: the quotient belongs to the value and the modulus.
    pub closed spec fn wf(self) -> bool {
        &&& self.modulus > 0
        &&& self.value < self.modulus
        &&& self.quotient == (self.value * 0x1_0000_0000) / (self.modulus as int)
    }

    /// The multiplier.
    pub closed spec fn spec_value(self) -> nat {
        self.value as nat
    }

    /// The modulus the factor was made for.
    pub closed spec fn spec_modulus(self) -> nat {
        self.modulus as nat
    }

    /// Precomputes the factor for `value` modulo `modulus`.
    pub fn new(value: u32, modulus: u32) -> (r: Self)
        requires
            modulus > 0,
            value < modulus,
        ensures
            r.wf(),
            r.spec_value() == value,
            r.spec_modulus() == modulus,
    {
        let ghost num = value * 0x1_0000_0000;
        proof {
            lemma_fundamental_div_mod(num as int, modulus as int);
            lemma_mod_bound(num as int, modulus as int);
            assert(num / (modulus as int) < 0x1_0000_0000) by (nonlinear_arith)
                requires
                    num == modulus * (num / (modulus as int)) + num % (modulus as int),
                    0 <= num % (modulus as int),
                    num == value * 0x1_0000_0000,
                    value < modulus,
            ;
        }
        let quotient = ((value as u64 * 0x1_0000_0000u64) / modulus as u64) as u32;
        ShoupFactor { value, quotient, modulus }
    }

    /// The multiplier.
    pub fn value(&self) -> (r: u32)
        ensures
            r == self.spec_value(),
    {
        self.value
    }

    /// The modulus the factor was made for.
    pub fn modulus(&self) -> (r: u32)
        ensures
            r == self.spec_modulus(),
            self.wf() ==> r > 0,
    {
        self.modulus
    }

    /// `x · value mod modulus` by Shoup's method: one 32-bit high product
    /// estimates the quotient, one conditional subtraction corrects it.
    pub fn mul_reduce(&self, x: u32) -> (r: u32)
        requires
            self.wf(),
        ensures
            r == (x * self.spec_value()) % (self.spec_modulus() as int),
    {
        let w = self.value as u64;
        let wq = self.quotient as u64;
        let q = self.modulus as u64;
        let xx = x as u64;
        proof {
            lemma_mul_upper_bound(xx as int, 0xffff_ffff, wq as int, 0xffff_ffff);
        }
        let h = (xx * wq) / 0x1_0000_0000u64;
        let ghost t: int = (w * 0x1_0000_0000) % (q as int);
        let ghost f: int = (xx * wq) % 0x1_0000_0000;
        proof {
            lemma_fundamental_div_mod((w * 0x1_0000_0000) as int, q as int);
            lemma_fundamental_div_mod((xx * wq) as int, 0x1_0000_0000);
            lemma_mod_bound((w * 0x1_0000_0000) as int, q as int);
            lemma_mod_bound((xx * wq) as int, 0x1_0000_0000);
            assert((xx * w - h * q) * 0x1_0000_0000 == q * f + xx * t) by (nonlinear_arith)
                requires
                    w * 0x1_0000_0000 == q * wq + t,
                    xx * wq == 0x1_0000_0000 * h + f,
            ;
            assert(0 <= q * f + xx * t < 2 * q * 0x1_0000_0000) by (nonlinear_arith)
                requires
                    0 <= f < 0x1_0000_0000,
                    0 <= t < q,
                    0 <= xx < 0x1_0000_0000,
                    q > 0,
            ;
            assert(0 <= xx * w - h * q < 2 * q) by (nonlinear_arith)
                requires
                    (xx * w - h * q) * 0x1_0000_0000 == q * f + xx * t,
                    0 <= q * f + xx * t < 2 * q * 0x1_0000_0000,
            ;
            assert(h * q <= xx * w);
            lemma_mul_upper_bound(xx as int, 0xffff_ffff, w as int, 0xffff_ffff);
        }
        let r = xx * w - h * q;
        let reduced = if r >= q {
            r - q
        } else {
            r
        };
        proof {
            if r >= q {
                assert((h + 1) * q == h * q + q) by (nonlinear_arith);
            }
            lemma_fundamental_div_mod_converse(
                (xx * w) as int,
                q as int,
                if r >= q {
                    h + 1
                } else {
                    h as int
                },
                reduced as int,
            );
        }
        reduced as u32
    }
}

/// Whether the protocol has parameters for this many parties: a power of two
/// from 2 to 2048.
pub open spec fn supported_party_count(n: nat) -> bool {
    n == 2 || n == 4 || n == 8 || n == 16 || n == 32 || n == 64 || n == 128 || n == 256 || n == 512
        || n == 1024 || n == 2048
}

/// A gadget decomposition basis: `log_basis` bits per digit, `count` digits.
#[derive(Clone, Copy, PartialEq, Eq, Structural, Debug)]
pub struct BasisChoice {
    pub log_basis: u32,
    pub count: usize,
}

/// The integer parameters of one parameter set (the noise deviations, which
/// are floating point, are chosen alongside by the caller).
pub struct ParameterChoice {
    /// Coefficients of a commit polynomial.
    pub commit_poly_length: usize,
    /// GLWE dimension of the ring ciphertexts.
    pub ring_dimension: usize,
    /// Coefficients of a ring polynomial.
    pub ring_poly_length: usize,
    /// The RNS cipher moduli whose product is `q`.
    pub rns_moduli: Vec<u64>,
    /// Decomposition basis of the RGSW ciphertexts.
    pub ggsw_basis: BasisChoice,
    /// Decomposition basis of the coefficient-expansion keys.
    pub expand_basis: BasisChoice,
}

/// The commit polynomial length for `n` parties.
pub open spec fn commit_poly_length_for(n: nat) -> nat {
    if n <= 32 {
        512
    } else {
        1024
    }
}

/// The RNS cipher moduli for `n` parties.
pub open spec fn rns_moduli_for(n: nat) -> Seq<u64> {
    if n <= 128 {
        seq![1125899906826241u64, 1125899906629633u64]
    } else if n == 256 {
        seq![137438822401u64, 68719403009u64, 68719230977u64]
    } else if n == 512 || n == 1024 {
        seq![137438822401u64, 137438814209u64, 68719403009u64]
    } else {
        seq![137438822401u64, 137438814209u64, 137438773249u64]
    }
}

/// The product of a sequence of moduli.
pub open spec fn moduli_product(m: Seq<u64>) -> nat
    decreases m.len(),
{
    if m.len() == 0 {
        1
    } else {
        moduli_product(m.drop_last()) * m.last() as nat
    }
}

/// 2^128, the first number a `u128` cannot hold.
pub open spec fn u128_limit() -> nat {
    0x1_0000_0000_0000_0000 * 0x1_0000_0000_0000_0000
}

proof fn lemma_product_of_two(a: u64, b: u64)
    ensures
        moduli_product(seq![a, b]) == a as nat * b as nat,
{
    let one = seq![a];
    let two = seq![a, b];
    assert(one.drop_last() =~= Seq::<u64>::empty());
    assert(moduli_product(Seq::<u64>::empty()) == 1);
    assert(one.last() == a);
    assert(one.len() == 1);
    assert(moduli_product(one) == moduli_product(one.drop_last()) * one.last() as nat);
    assert(moduli_product(one) == a);
    assert(two.drop_last() =~= one);
    assert(two.last() == b);
    assert(moduli_product(two) == moduli_product(one) * b as nat);
}

proof fn lemma_product_of_three(a: u64, b: u64, c: u64)
    ensures
        moduli_product(seq![a, b, c]) == a as nat * b as nat * c as nat,
{
    let three = seq![a, b, c];
    assert(three.drop_last() =~= seq![a, b]);
    assert(three.last() == c);
    lemma_product_of_two(a, b);
    assert(moduli_product(three) == moduli_product(seq![a, b]) * c as nat);
}

/// For every supported number of parties, the ciphertext modulus `q` (the
/// product of the RNS moduli), the mask modulus `q'` (the least multiple of
/// the plaintext modulus `p` that is at least `q`) and `Δ' = q' / p` all fit
/// in 128 bits, so distributed decryption takes the two-limb path.
pub proof fn law_decryption_moduli_fit_u128(n: nat, p: nat, q_prime: nat, delta_prime: nat)
    requires
        supported_party_count(n),
        0 < p < 0x1_0000_0000_0000_0000,
        moduli_product(rns_moduli_for(n)) <= q_prime,
        q_prime < moduli_product(rns_moduli_for(n)) + p,
        delta_prime * p == q_prime,
    ensures
        moduli_product(rns_moduli_for(n)) < u128_limit(),
        q_prime < u128_limit(),
        delta_prime < u128_limit(),
{
    let bound: nat = 0xffff_ffff_ffff_ffff_0000_0000_0000_0000;
    if n <= 128 {
        lemma_product_of_two(1125899906826241u64, 1125899906629633u64);
    } else if n == 256 {
        lemma_product_of_three(137438822401u64, 68719403009u64, 68719230977u64);
    } else if n == 512 || n == 1024 {
        lemma_product_of_three(137438822401u64, 137438814209u64, 68719403009u64);
    } else {
        lemma_product_of_three(137438822401u64, 137438814209u64, 137438773249u64);
    }
    assert(moduli_product(rns_moduli_for(n)) < bound);
    assert(delta_prime <= q_prime) by (nonlinear_arith)
        requires
            delta_prime * p == q_prime,
            p >= 1,
    ;
}

/// The RGSW decomposition basis `(log_basis, count)` for `n` parties.
pub open spec fn ggsw_basis_for(n: nat) -> (u32, usize) {
    if n <= 8 {
        (23, 3)
    } else if n <= 32 {
        (18, 4)
    } else if n == 64 {
        (15, 5)
    } else if n == 128 {
        (13, 6)
    } else if n <= 512 {
        (17, 5)
    } else if n == 1024 {
        (14, 6)
    } else {
        (13, 7)
    }
}

/// The coefficient-expansion decomposition basis `(log_basis, count)` for `n`
/// parties.
pub open spec fn expand_basis_for(n: nat) -> (u32, usize) {
    if n == 2 {
        (33, 2)
    } else if n <= 16 {
        (25, 3)
    } else if n == 32 {
        (20, 4)
    } else if n <= 128 {
        (16, 5)
    } else if n == 256 {
        (21, 4)
    } else if n == 512 {
        (18, 5)
    } else {
        (15, 6)
    }
}

fn basis(log_basis: u32, count: usize) -> (r: BasisChoice)
    ensures
        r.log_basis == log_basis,
        r.count == count,
{
    BasisChoice { log_basis, count }
}

/// The parameter table, party count by party count: commit polynomials of
/// 512 coefficients up to 32 parties and 1024 beyond; two RNS moduli of 50
/// bits up to 128 parties and three of 36 or 37 bits beyond; and the RGSW and
/// coefficient-expansion decomposition bases `(bits per digit, digits)` of
/// each party count.
pub proof fn law_parameter_table(n: nat)
    requires
        supported_party_count(n),
    ensures
        n <= 32 ==> commit_poly_length_for(n) == 512,
        n >= 64 ==> commit_poly_length_for(n) == 1024,
        n <= 128 ==> rns_moduli_for(n) == seq![1125899906826241u64, 1125899906629633u64],
        n == 256 ==> rns_moduli_for(n) == seq![137438822401u64, 68719403009u64, 68719230977u64],
        n == 512 || n == 1024 ==> rns_moduli_for(n) == seq![
            137438822401u64,
            137438814209u64,
            68719403009u64,
        ],
        n == 2048 ==> rns_moduli_for(n) == seq![
            137438822401u64,
            137438814209u64,
            137438773249u64,
        ],
        n == 2 || n == 4 || n == 8 ==> ggsw_basis_for(n) == (23u32, 3usize),
        n == 16 || n == 32 ==> ggsw_basis_for(n) == (18u32, 4usize),
        n == 64 ==> ggsw_basis_for(n) == (15u32, 5usize),
        n == 128 ==> ggsw_basis_for(n) == (13u32, 6usize),
        n == 256 || n == 512 ==> ggsw_basis_for(n) == (17u32, 5usize),
        n == 1024 ==> ggsw_basis_for(n) == (14u32, 6usize),
        n == 2048 ==> ggsw_basis_for(n) == (13u32, 7usize),
        n == 2 ==> expand_basis_for(n) == (33u32, 2usize),
        n == 4 || n == 8 || n == 16 ==> expand_basis_for(n) == (25u32, 3usize),
        n == 32 ==> expand_basis_for(n) == (20u32, 4usize),
        n == 64 || n == 128 ==> expand_basis_for(n) == (16u32, 5usize),
        n == 256 ==> expand_basis_for(n) == (21u32, 4usize),
        n == 512 ==> expand_basis_for(n) == (18u32, 5usize),
        n == 1024 || n == 2048 ==> expand_basis_for(n) == (15u32, 6usize),
{
}

/// More parties never get shorter commit polynomials or coarser RGSW and
/// expansion digits while the RNS moduli stay the same: among the party counts
/// up to 128 (two moduli), a larger count has commit polynomials at least as
/// long, RGSW and expansion bases of at most as many bits per digit, and at
/// least as many digits.
pub proof fn law_parameters_refine_with_party_count(n: nat, m: nat)
    requires
        supported_party_count(n),
        supported_party_count(m),
        n <= m,
    ensures
        commit_poly_length_for(n) <= commit_poly_length_for(m),
        m <= 128 ==> ggsw_basis_for(m).0 <= ggsw_basis_for(n).0,
        m <= 128 ==> ggsw_basis_for(n).1 <= ggsw_basis_for(m).1,
        m <= 128 ==> expand_basis_for(m).0 <= expand_basis_for(n).0,
        m <= 128 ==> expand_basis_for(n).1 <= expand_basis_for(m).1,
{
}

/// The integer parameters for `party_count` parties.
pub fn parameter_choice(party_count: usize) -> (r: ParameterChoice)
    requires
        supported_party_count(party_count as nat),
    ensures
        r.commit_poly_length == commit_poly_length_for(party_count as nat),
        r.ring_dimension == 1,
        r.ring_poly_length == 4096,
        r.rns_moduli@ == rns_moduli_for(party_count as nat),
        (r.ggsw_basis.log_basis, r.ggsw_basis.count) == ggsw_basis_for(party_count as nat),
        (r.expand_basis.log_basis, r.expand_basis.count) == expand_basis_for(party_count as nat),
        party_count <= 32 ==> r.commit_poly_length == 512,
        party_count >= 64 ==> r.commit_poly_length == 1024,
        party_count <= 128 ==> r.rns_moduli.len() == 2,
        party_count >= 256 ==> r.rns_moduli.len() == 3,
        party_count <= 8 ==> r.ggsw_basis.log_basis == 23 && r.ggsw_basis.count == 3,
        party_count == 16 || party_count == 32 ==> r.ggsw_basis.log_basis == 18
            && r.ggsw_basis.count == 4,
        party_count == 64 ==> r.ggsw_basis.log_basis == 15 && r.ggsw_basis.count == 5,
        party_count == 128 ==> r.ggsw_basis.log_basis == 13 && r.ggsw_basis.count == 6,
        party_count == 256 || party_count == 512 ==> r.ggsw_basis.log_basis == 17
            && r.ggsw_basis.count == 5,
        party_count == 1024 ==> r.ggsw_basis.log_basis == 14 && r.ggsw_basis.count == 6,
        party_count == 2048 ==> r.ggsw_basis.log_basis == 13 && r.ggsw_basis.count == 7,
        party_count == 2 ==> r.expand_basis.log_basis == 33 && r.expand_basis.count == 2,
        4 <= party_count <= 16 ==> r.expand_basis.log_basis == 25 && r.expand_basis.count == 3,
        party_count == 32 ==> r.expand_basis.log_basis == 20 && r.expand_basis.count == 4,
        party_count == 64 || party_count == 128 ==> r.expand_basis.log_basis == 16
            && r.expand_basis.count == 5,
        party_count == 256 ==> r.expand_basis.log_basis == 21 && r.expand_basis.count == 4,
        party_count == 512 ==> r.expand_basis.log_basis == 18 && r.expand_basis.count == 5,
        party_count >= 1024 ==> r.expand_basis.log_basis == 15 && r.expand_basis.count == 6,
{
    proof {
        law_parameter_table(party_count as nat);
    }
    let commit_poly_length: usize = if party_count <= 32 {
        512
    } else {
        1024
    };
    let mut rns_moduli: Vec<u64> = Vec::new();
    if party_count <= 128 {
        rns_moduli.push(1125899906826241);
        rns_moduli.push(1125899906629633);
    } else if party_count == 256 {
        rns_moduli.push(137438822401);
        rns_moduli.push(68719403009);
        rns_moduli.push(68719230977);
    } else if party_count == 512 || party_count == 1024 {
        rns_moduli.push(137438822401);
        rns_moduli.push(137438814209);
        rns_moduli.push(68719403009);
    } else {
        rns_moduli.push(137438822401);
        rns_moduli.push(137438814209);
        rns_moduli.push(137438773249);
    }
    let ggsw_basis = if party_count <= 8 {
        basis(23, 3)
    } else if party_count <= 32 {
        basis(18, 4)
    } else if party_count == 64 {
        basis(15, 5)
    } else if party_count == 128 {
        basis(13, 6)
    } else if party_count <= 512 {
        basis(17, 5)
    } else if party_count == 1024 {
        basis(14, 6)
    } else {
        basis(13, 7)
    };
    let expand_basis = if party_count == 2 {
        basis(33, 2)
    } else if party_count <= 16 {
        basis(25, 3)
    } else if party_count == 32 {
        basis(20, 4)
    } else if party_count <= 128 {
        basis(16, 5)
    } else if party_count == 256 {
        basis(21, 4)
    } else if party_count == 512 {
        basis(18, 5)
    } else {
        basis(15, 6)
    };
    assert(rns_moduli@ =~= rns_moduli_for(party_count as nat));
    ParameterChoice {
        commit_poly_length,
        ring_dimension: 1,
        ring_poly_length: 4096,
        rns_moduli,
        ggsw_basis,
        expand_basis,
    }
}

} // verus!
