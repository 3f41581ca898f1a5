//! Native `u128` arithmetic for moduli that fit in 128 bits: values are kept as
//! two little-endian `u64` limbs (`[lo, hi]`).
use crate::limbs::{
    base, lemma_add_mod, lemma_limbs_lower_bound, lemma_limbs_short, lemma_limbs_split,
    lemma_limbs_zero, lemma_pow64_monotone, lemma_pow64_small, limbs_value, pow64,
};
use vstd::arithmetic::div_mod::*;
use vstd::arithmetic::mul::*;
use vstd::prelude::*;

verus! {

/// 2^64 as an executable constant.
pub const LIMB_BASE: u128 = 0x1_0000_0000_0000_0000u128;

/// The value held by a two-limb pair.
pub open spec fn pair_value(a: [u64; 2]) -> nat {
    a[0] as nat + a[1] as nat * base()
}

/// 2^128.
pub open spec fn wide_base() -> nat {
    base() * base()
}

/// Division by `d` rounded to the nearest integer, halves rounded up.
pub open spec fn round_div(x: nat, d: nat) -> nat
    recommends
        d > 0,
{
    x / d + (if 2 * (x % d) >= d {
        1nat
    } else {
        0nat
    })
}

/// Reads the pair as one `u128`.
pub fn read_u128(a: &[u64; 2]) -> (r: u128)
    ensures
        r == pair_value(*a),
{
    a[0] as u128 + (a[1] as u128) * LIMB_BASE
}

/// Stores `v` into the pair, low limb first.
pub fn write_u128(a: &mut [u64; 2], v: u128)
    ensures
        pair_value(*final(a)) == v,
{
    a[0] = (v % LIMB_BASE) as u64;
    a[1] = (v / LIMB_BASE) as u64;
}

/// `(x + y) mod m` without overflow, for any `x`, `y`.
pub fn add_mod(x: u128, y: u128, m: u128) -> (r: u128)
    requires
        m > 0,
    ensures
        r == (x + y) % (m as int),
        r < m,
{
    let a = x % m;
    let b = y % m;
    proof {
        lemma_add_mod(x as int, y as int, m as int);
    }
    if a >= m - b {
        let r = a - (m - b);
        proof {
            lemma_mod_sub_multiples_vanish(a + b, m as int);
            lemma_small_mod(r as nat, m as nat);
        }
        r
    } else {
        proof {
            lemma_small_mod((a + b) as nat, m as nat);
        }
        a + b
    }
}

/// `(x - y) mod m` (least non-negative residue), for any `x`, `y`.
pub fn sub_mod(x: u128, y: u128, m: u128) -> (r: u128)
    requires
        m > 0,
    ensures
        r == (x - y) % (m as int),
        r < m,
{
    let a = x % m;
    let b = y % m;
    proof {
        lemma_add_mod(x as int, y as int, m as int);
    }
    if a >= b {
        proof {
            lemma_small_mod((a - b) as nat, m as nat);
        }
        a - b
    } else {
        let r = m - (b - a);
        proof {
            lemma_mod_add_multiples_vanish(a - b, m as int);
            lemma_small_mod(r as nat, m as nat);
        }
        r
    }
}

/// `a ← (a + b) mod modulus`.
pub fn add_mod_u128(a: &mut [u64; 2], b: &[u64; 2], modulus: u128)
    requires
        modulus > 0,
    ensures
        pair_value(*final(a)) == (pair_value(*old(a)) + pair_value(*b)) as int % (modulus as int),
{
    let x = read_u128(a);
    let y = read_u128(b);
    write_u128(a, add_mod(x, y, modulus));
}

/// `a ← (a - b) mod modulus`.
pub fn sub_mod_u128(a: &mut [u64; 2], b: &[u64; 2], modulus: u128)
    requires
        modulus > 0,
    ensures
        pair_value(*final(a)) == (pair_value(*old(a)) - pair_value(*b)) % (modulus as int),
{
    let x = read_u128(a);
    let y = read_u128(b);
    write_u128(a, sub_mod(x, y, modulus));
}

/// `a ← (-a) mod modulus`.
pub fn neg_mod_u128(a: &mut [u64; 2], modulus: u128)
    requires
        modulus > 0,
    ensures
        pair_value(*final(a)) == (0 - pair_value(*old(a))) % (modulus as int),
{
    let x = read_u128(a);
    write_u128(a, sub_mod(0, x, modulus));
}

/// Converts a limb sequence to `u128`; `None` when the value needs more than
/// 128 bits.
pub fn biguint_to_u128(n: &[u64]) -> (r: Option<u128>)
    ensures
        r is Some <==> limbs_value(n@) < wide_base(),
        r matches Some(v) ==> v == limbs_value(n@),
{
    let len = n.len();
    let mut k: usize = 2;
    while k < len
        invariant
            len == n.len(),
            2 <= k,
            forall|i: int| 2 <= i < k && i < len ==> n@[i] == 0,
        decreases len - k,
    {
        if n[k] != 0 {
            proof {
                lemma_limbs_lower_bound(n@, k as int);
                lemma_pow64_monotone(2, k as nat);
                lemma_pow64_small();
            }
            return None;
        }
        k = k + 1;
    }
    let lo: u64 = if len > 0 {
        n[0]
    } else {
        0
    };
    let hi: u64 = if len > 1 {
        n[1]
    } else {
        0
    };
    proof {
        let t = n@.take(if len < 2 {
            len as int
        } else {
            2
        });
        lemma_limbs_split(n@, t.len() as int);
        lemma_limbs_zero(n@.skip(t.len() as int));
        lemma_mul_basics(pow64(t.len()) as int);
        lemma_limbs_short(t);
        lemma_mul_inequality(hi as int, base() - 1, base() as int);
    }
    Some(lo as u128 + (hi as u128) * LIMB_BASE)
}

proof fn lemma_wide_mul_parts(
    a0: int,
    a1: int,
    b0: int,
    b1: int,
    p00: int,
    p01: int,
    p10: int,
    p11: int,
    mid: int,
    lo: int,
    hi: int,
    bb: int,
)
    requires
        bb == 0x1_0000_0000_0000_0000,
        0 <= a0 < bb,
        0 <= a1 < bb,
        0 <= b0 < bb,
        0 <= b1 < bb,
        p00 == a0 * b0,
        p01 == a0 * b1,
        p10 == a1 * b0,
        p11 == a1 * b1,
        mid == p00 / bb + p01 % bb + p10 % bb,
        lo == p00 % bb + (mid % bb) * bb,
        hi == p11 + p01 / bb + p10 / bb + mid / bb,
    ensures
        lo + hi * (bb * bb) == (a1 * bb + a0) * (b1 * bb + b0),
        0 <= lo < bb * bb,
        0 <= hi < bb * bb,
{
    lemma_fundamental_div_mod(p00, bb);
    lemma_fundamental_div_mod(p01, bb);
    lemma_fundamental_div_mod(p10, bb);
    lemma_fundamental_div_mod(mid, bb);
    lemma_mod_bound(p00, bb);
    lemma_mod_bound(mid, bb);
    lemma_mul_nonnegative(a0, b0);
    lemma_mul_nonnegative(a0, b1);
    lemma_mul_nonnegative(a1, b0);
    lemma_mul_nonnegative(a1, b1);
    assert((a1 * bb + a0) * (b1 * bb + b0) == (a1 * bb + a0) * (b1 * bb) + (a1 * bb + a0) * b0)
        by {
        lemma_mul_is_distributive_add(a1 * bb + a0, b1 * bb, b0);
    }
    assert((a1 * bb + a0) * (b1 * bb) == (a1 * bb) * (b1 * bb) + a0 * (b1 * bb)) by {
        lemma_mul_is_distributive_add_other_way(b1 * bb, a1 * bb, a0);
    }
    assert((a1 * bb + a0) * b0 == (a1 * bb) * b0 + a0 * b0) by {
        lemma_mul_is_distributive_add_other_way(b0, a1 * bb, a0);
    }
    assert((a1 * bb) * (b1 * bb) == p11 * (bb * bb)) by (nonlinear_arith)
        requires
            p11 == a1 * b1,
    ;
    assert(a0 * (b1 * bb) == p01 * bb) by (nonlinear_arith)
        requires
            p01 == a0 * b1,
    ;
    assert((a1 * bb) * b0 == p10 * bb) by (nonlinear_arith)
        requires
            p10 == a1 * b0,
    ;
    assert(p01 * bb + p10 * bb == (p01 + p10) * bb) by {
        lemma_mul_is_distributive_add_other_way(bb, p01, p10);
    }
    assert(bb * bb == 0x1_0000_0000_0000_0000_0000_0000_0000_0000);
    assert(lo + hi * 0x1_0000_0000_0000_0000_0000_0000_0000_0000 == p11
        * 0x1_0000_0000_0000_0000_0000_0000_0000_0000 + (p01 + p10) * 0x1_0000_0000_0000_0000
        + p00);
    assert(0 <= lo < bb * bb) by (nonlinear_arith)
        requires
            0 <= p00 % bb < bb,
            0 <= mid % bb < bb,
            lo == p00 % bb + (mid % bb) * bb,
    ;
    assert((a1 * bb + a0) * (b1 * bb + b0) < (bb * bb) * (bb * bb)) by (nonlinear_arith)
        requires
            0 <= a0 < bb,
            0 <= a1 < bb,
            0 <= b0 < bb,
            0 <= b1 < bb,
    ;
    lemma_div_pos_is_pos(p01, bb);
    lemma_div_pos_is_pos(p10, bb);
    lemma_div_pos_is_pos(mid, bb);
    assert(0 <= hi < bb * bb) by (nonlinear_arith)
        requires
            hi >= 0,
            lo >= 0,
            lo + hi * (bb * bb) < (bb * bb) * (bb * bb),
            bb > 0,
    ;
}

/// Full 256-bit product of two `u128` values, as `(low, high)` halves.
fn widening_mul(a: u128, b: u128) -> (r: (u128, u128))
    ensures
        r.0 + r.1 * wide_base() == a * b,
{
    let a0 = a % LIMB_BASE;
    let a1 = a / LIMB_BASE;
    let b0 = b % LIMB_BASE;
    let b1 = b / LIMB_BASE;
    proof {
        lemma_fundamental_div_mod(a as int, LIMB_BASE as int);
        lemma_fundamental_div_mod(b as int, LIMB_BASE as int);
        lemma_div_by_multiple_is_strongly_ordered(
            a as int,
            (LIMB_BASE * LIMB_BASE) as int,
            LIMB_BASE as int,
            LIMB_BASE as int,
        );
        lemma_div_by_multiple_is_strongly_ordered(
            b as int,
            (LIMB_BASE * LIMB_BASE) as int,
            LIMB_BASE as int,
            LIMB_BASE as int,
        );
        lemma_div_by_multiple(LIMB_BASE as int, LIMB_BASE as int);
        lemma_mul_inequality(a0 as int, LIMB_BASE - 1, b0 as int);
        lemma_mul_inequality(b0 as int, LIMB_BASE - 1, (LIMB_BASE - 1) as int);
        lemma_mul_is_commutative(a0 as int, b0 as int);
        lemma_mul_is_commutative((LIMB_BASE - 1) as int, b0 as int);
        lemma_mul_inequality(a0 as int, LIMB_BASE - 1, b1 as int);
        lemma_mul_inequality(b1 as int, LIMB_BASE - 1, (LIMB_BASE - 1) as int);
        lemma_mul_is_commutative(a0 as int, b1 as int);
        lemma_mul_is_commutative((LIMB_BASE - 1) as int, b1 as int);
        lemma_mul_inequality(a1 as int, LIMB_BASE - 1, b0 as int);
        lemma_mul_is_commutative(a1 as int, b0 as int);
        lemma_mul_inequality(a1 as int, LIMB_BASE - 1, b1 as int);
        lemma_mul_is_commutative(a1 as int, b1 as int);
    }
    let p00 = a0 * b0;
    let p01 = a0 * b1;
    let p10 = a1 * b0;
    let p11 = a1 * b1;
    let mid = p00 / LIMB_BASE + p01 % LIMB_BASE + p10 % LIMB_BASE;
    let ghost lo_g: int = p00 % LIMB_BASE + (mid % LIMB_BASE) * LIMB_BASE;
    let ghost hi_g: int = p11 + p01 / LIMB_BASE + p10 / LIMB_BASE + mid / LIMB_BASE;
    proof {
        lemma_wide_mul_parts(
            a0 as int,
            a1 as int,
            b0 as int,
            b1 as int,
            p00 as int,
            p01 as int,
            p10 as int,
            p11 as int,
            mid as int,
            lo_g,
            hi_g,
            LIMB_BASE as int,
        );
        lemma_div_pos_is_pos(p01 as int, LIMB_BASE as int);
        lemma_div_pos_is_pos(p10 as int, LIMB_BASE as int);
        lemma_div_pos_is_pos(mid as int, LIMB_BASE as int);
        lemma_mod_bound(mid as int, LIMB_BASE as int);
    }
    let lo = p00 % LIMB_BASE + (mid % LIMB_BASE) * LIMB_BASE;
    let hi = p11 + p01 / LIMB_BASE + p10 / LIMB_BASE + mid / LIMB_BASE;
    (lo, hi)
}

/// Divides the 256-bit number `hi · 2^128 + lo` by `d`, given `hi < d` so the
/// quotient fits in 128 bits; returns `(quotient, remainder)`.
fn div_rem_wide(lo: u128, hi: u128, d: u128) -> (r: (u128, u128))
    requires
        hi < d,
    ensures
        r.0 * d + r.1 == lo + hi * wide_base(),
        r.1 < d,
{
    let mut rem: u128 = hi;
    let mut quot: u128 = 0;
    let mut i: u128 = 0;
    proof {
        vstd::arithmetic::power2::lemma_pow2(128);
        vstd::arithmetic::power2::lemma2_to64();
        vstd::arithmetic::power2::lemma_pow2_adds(64, 64);
        assert(wide_base() == vstd::arithmetic::power2::pow2(128)) by {
            vstd::arithmetic::power2::lemma2_to64_rest();
        }
        lemma_div_basics(lo as int);
        lemma_basic_div(lo as int, vstd::arithmetic::power2::pow2(128) as int);
        assert(hi * vstd::arithmetic::power2::pow2(0) == hi);
    }
    while i < 128
        invariant
            0 <= i <= 128,
            rem < d,
            quot < vstd::arithmetic::power2::pow2(i as nat),
            wide_base() == vstd::arithmetic::power2::pow2(128),
            hi * vstd::arithmetic::power2::pow2(i as nat) + lo as nat
                / vstd::arithmetic::power2::pow2((128 - i) as nat) == quot * d + rem,
        decreases 128 - i,
    {
        let ghost prev: int = (lo as nat / vstd::arithmetic::power2::pow2((128 - i) as nat)) as int;
        let ghost next: int = (lo as nat / vstd::arithmetic::power2::pow2((127 - i) as nat)) as int;
        proof {
            vstd::bits::lemma_u128_shr_is_div(lo, (127 - i) as u128);
            vstd::arithmetic::power2::lemma_pow2_pos((127 - i) as nat);
            vstd::arithmetic::power2::lemma_pow2_adds((127 - i) as nat, 1);
            vstd::arithmetic::power2::lemma_pow2_unfold(1);
            vstd::arithmetic::power2::lemma_pow2(0);
            lemma_div_denominator(
                lo as int,
                vstd::arithmetic::power2::pow2((127 - i) as nat) as int,
                2,
            );
            assert((128 - i) as nat == ((127 - i) as nat + 1) as nat);
            lemma_fundamental_div_mod(next, 2);
            vstd::arithmetic::power2::lemma_pow2_adds(i as nat, 1);
            vstd::arithmetic::power2::lemma_pow2_pos(i as nat);
        }
        let bit = (lo >> (127 - i)) % 2;
        proof {
            vstd::arithmetic::power2::lemma2_to64();
            assert(vstd::arithmetic::power2::pow2((128 - i) as nat)
                == vstd::arithmetic::power2::pow2((127 - i) as nat) * 2);
            assert(prev == next / 2);
            assert(bit == next % 2);
            assert(next == 2 * prev + bit);
            vstd::arithmetic::power2::lemma_pow2_unfold((i + 1) as nat);
            assert(vstd::arithmetic::power2::pow2((i + 1) as nat) == 2
                * vstd::arithmetic::power2::pow2(i as nat));
            if i < 127 {
                vstd::arithmetic::power2::lemma_pow2_strictly_increases((i + 1) as nat, 128);
            }
            assert(vstd::arithmetic::power2::pow2((i + 1) as nat) <= wide_base());
            assert(hi * vstd::arithmetic::power2::pow2((i + 1) as nat) + next == 2 * (quot * d
                + rem) + bit) by (nonlinear_arith)
                requires
                    vstd::arithmetic::power2::pow2((i + 1) as nat) == 2
                        * vstd::arithmetic::power2::pow2(i as nat),
                    hi * vstd::arithmetic::power2::pow2(i as nat) + prev == quot * d + rem,
                    next == 2 * prev + bit,
            ;
        }
        let ghost q0 = quot;
        let ghost r0 = rem;
        let t = d - rem;
        if rem + bit >= t {
            rem = rem + bit - t;
            quot = 2 * quot + 1;
            proof {
                assert(quot * d == 2 * (q0 * d) + d) by (nonlinear_arith)
                    requires
                        quot == 2 * q0 + 1,
                ;
            }
        } else {
            rem = 2 * rem + bit;
            quot = 2 * quot;
            proof {
                assert(quot * d == 2 * (q0 * d)) by (nonlinear_arith)
                    requires
                        quot == 2 * q0,
                ;
            }
        }
        i = i + 1;
    }
    proof {
        vstd::arithmetic::power2::lemma_pow2(0);
        lemma_div_basics(lo as int);
    }
    (quot, rem)
}

/// Scales `value` by `q_prime / q` with rounding to nearest (halves up), stores
/// the result in `value`, and stores the result reduced modulo `delta_prime`
/// in `e`. `value` must hold a number below `q`.
pub fn scale_round_and_mod(
    value: &mut [u64; 2],
    e: &mut [u64; 2],
    q: u128,
    q_prime: u128,
    delta_prime: u128,
)
    requires
        q > 0,
        delta_prime > 0,
        pair_value(*old(value)) < q,
    ensures
        pair_value(*final(value)) == round_div(pair_value(*old(value)) * (q_prime as nat), q as nat),
        pair_value(*final(e)) == round_div(pair_value(*old(value)) * (q_prime as nat), q as nat) % (
        delta_prime as nat),
{
    let val = read_u128(value);
    let (lo, hi) = widening_mul(val, q_prime);
    proof {
        assert(hi < q) by (nonlinear_arith)
            requires
                lo + hi * wide_base() == val * q_prime,
                val < q,
                q_prime < wide_base(),
                lo >= 0,
        ;
    }
    let (quotient, rem) = div_rem_wide(lo, hi, q);
    proof {
        lemma_fundamental_div_mod_converse(
            (val * q_prime) as int,
            q as int,
            quotient as int,
            rem as int,
        );
        if q_prime == 0 {
            lemma_mul_basics(val as int);
            lemma_mul_nonnegative(quotient as int, q as int);
            if quotient > 0 {
                lemma_mul_strictly_positive(quotient as int, q as int);
            }
        } else if quotient >= q_prime {
            lemma_mul_inequality(q_prime as int, quotient as int, q as int);
            lemma_mul_strict_inequality(val as int, q as int, q_prime as int);
            lemma_mul_is_commutative(val as int, q_prime as int);
            lemma_mul_is_commutative(q as int, q_prime as int);
        }
    }
    let result = if rem >= q - rem {
        quotient + 1
    } else {
        quotient
    };
    write_u128(value, result);
    write_u128(e, result % delta_prime);
}

} // verus!
