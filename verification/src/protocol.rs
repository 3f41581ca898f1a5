//! The protocol's share arithmetic for distributed decryption: masking,
//! aggregation, centering and rounding of additive shares, in the `u128` fast
//! path (two limbs per value) and the multi-limb fallback.
use crate::fast_path::{
    add_mod_u128, neg_mod_u128, pair_value, read_u128, round_div, scale_round_and_mod,
    sub_mod_u128,
};
use crate::bignum::{
    add_modulo_assign, limbs_double_ge, limbs_ge, limbs_increment, limbs_pad, neg_modulo_assign,
    num_div_rem,
    num_mul, store_truncated, sub_modulo_assign, value_of,
};
use crate::limbs::{
    base, lemma_add_mod, lemma_limbs_bound, lemma_limbs_short, lemma_limbs_split, limbs_value, pow64,
};
use crate::parameters::{commit_q, ShoupFactor, COMMIT_MODULUS};
use crate::poly::{
    add_element_wise_assign, is_zero, monomial_mul_coeff, mul_factor_assign, mul_monomial_assign,
    sub_element_wise_assign,
};
use vstd::arithmetic::div_mod::*;
use vstd::arithmetic::mul::*;
use vstd::prelude::*;

verus! {

/// The value of the `i`-th two-limb pair of a limb sequence.
pub open spec fn pair_at(s: Seq<u64>, i: int) -> nat {
    s[2 * i] as nat + s[2 * i + 1] as nat * base()
}

/// 2^32.
pub open spec fn u32_modulus() -> nat {
    0x1_0000_0000
}

/// Reads a two-element slice as an array.
pub fn as_array2(slice: &[u64]) -> (r: [u64; 2])
    requires
        slice.len() == 2,
    ensures
        r@ == slice@,
{
    let r = [slice[0], slice[1]];
    assert(r@ =~= slice@);
    r
}

/// Reads the `i`-th pair of `s`.
fn load_pair(s: &[u64], i: usize) -> (r: [u64; 2])
    requires
        2 * i + 1 < s.len(),
    ensures
        pair_value(r) == pair_at(s@, i as int),
{
    as_array2(&s[2 * i..2 * i + 2])
}

/// Writes `v` as the `i`-th pair of `s`.
fn store_pair(s: &mut [u64], i: usize, v: [u64; 2])
    requires
        2 * i + 1 < old(s).len(),
    ensures
        final(s)@ == old(s)@.update(2 * i, v[0]).update(2 * i + 1, v[1]),
        pair_at(final(s)@, i as int) == pair_value(v),
{
    s[2 * i] = v[0];
    s[2 * i + 1] = v[1];
}

/// How many whole pairs two slices have in common.
pub open spec fn common_pairs(a: nat, b: nat) -> nat {
    if a / 2 <= b / 2 {
        a / 2
    } else {
        b / 2
    }
}

/// `a ← a + b (mod modulus)` pair by pair, over the pairs both slices hold.
fn add_pairs_mod(a: &mut [u64], b: &[u64], modulus: u128)
    requires
        modulus > 0,
    ensures
        final(a).len() == old(a).len(),
        forall|i: int|
            0 <= i < common_pairs(old(a).len() as nat, b.len() as nat) ==> pair_at(final(a)@, i)
                == (pair_at(old(a)@, i) + pair_at(b@, i)) % (modulus as nat),
        forall|k: int|
            2 * common_pairs(old(a).len() as nat, b.len() as nat) <= k < old(a).len()
                ==> final(a)@[k] == old(a)@[k],
{
    let count = if a.len() / 2 <= b.len() / 2 {
        a.len() / 2
    } else {
        b.len() / 2
    };
    let ghost a0 = a@;
    let mut i: usize = 0;
    while i < count
        invariant
            count == common_pairs(a0.len() as nat, b.len() as nat),
            a.len() == a0.len(),
            i <= count,
            modulus > 0,
            forall|j: int|
                0 <= j < i ==> pair_at(a@, j) == (pair_at(a0, j) + pair_at(b@, j)) % (modulus as nat),
            forall|k: int| 2 * i <= k < a.len() ==> a@[k] == a0[k],
        decreases count - i,
    {
        let ghost prev = a@;
        let mut x = load_pair(a, i);
        let y = load_pair(b, i);
        add_mod_u128(&mut x, &y, modulus);
        store_pair(a, i, x);
        proof {
            assert(pair_at(prev, i as int) == pair_at(a0, i as int));
            assert(pair_at(a@, i as int) == (pair_at(a0, i as int) + pair_at(b@, i as int)) % (
            modulus as nat));
            assert forall|j: int| 0 <= j < i + 1 implies pair_at(a@, j) == (pair_at(a0, j)
                + pair_at(b@, j)) % (modulus as nat) by {
                if j < i {
                    assert(a@[2 * j] == prev[2 * j]);
                    assert(a@[2 * j + 1] == prev[2 * j + 1]);
                    assert(pair_at(prev, j) == (pair_at(a0, j) + pair_at(b@, j)) % (modulus as nat));
                    assert(pair_at(a@, j) == pair_at(prev, j));
                }
            }
        }
        i = i + 1;
    }
}

/// Aggregates e-shares: `p0_e_share ← p0_e_share + other_e_shares (mod modulus)`,
/// value by value (two limbs each), over the values both slices hold.
pub fn aggregate_e_shares_u128(p0_e_share: &mut [u64], other_e_shares: &[u64], modulus: u128)
    requires
        modulus > 0,
    ensures
        final(p0_e_share).len() == old(p0_e_share).len(),
        forall|i: int|
            0 <= i < common_pairs(old(p0_e_share).len() as nat, other_e_shares.len() as nat)
                ==> pair_at(final(p0_e_share)@, i) == (pair_at(old(p0_e_share)@, i) + pair_at(
                other_e_shares@,
                i,
            )) % (modulus as nat),
        forall|k: int|
            2 * common_pairs(old(p0_e_share).len() as nat, other_e_shares.len() as nat) <= k
                < old(p0_e_share).len() ==> final(p0_e_share)@[k] == old(p0_e_share)@[k],
{
    add_pairs_mod(p0_e_share, other_e_shares, modulus);
}

/// Adds the q'-random mask: `value ← value + r_mod_q_prime (mod modulus)`, value
/// by value. Used by every party but party 0.
pub fn add_random_u128(value: &mut [u64], r_mod_q_prime: &[u64], modulus: u128)
    requires
        modulus > 0,
    ensures
        final(value).len() == old(value).len(),
        forall|i: int|
            0 <= i < common_pairs(old(value).len() as nat, r_mod_q_prime.len() as nat)
                ==> pair_at(final(value)@, i) == (pair_at(old(value)@, i) + pair_at(
                r_mod_q_prime@,
                i,
            )) % (modulus as nat),
        forall|k: int|
            2 * common_pairs(old(value).len() as nat, r_mod_q_prime.len() as nat) <= k < old(value).len() ==> final(value)@[k] == old(value)@[k],
{
    add_pairs_mod(value, r_mod_q_prime, modulus);
}

/// Aggregates value shares: `p0_share ← p0_share + other_shares (mod modulus)`,
/// value by value.
pub fn aggregate_value_shares_u128(p0_share: &mut [u64], other_shares: &[u64], modulus: u128)
    requires
        modulus > 0,
    ensures
        final(p0_share).len() == old(p0_share).len(),
        forall|i: int|
            0 <= i < common_pairs(old(p0_share).len() as nat, other_shares.len() as nat)
                ==> pair_at(final(p0_share)@, i) == (pair_at(old(p0_share)@, i) + pair_at(
                other_shares@,
                i,
            )) % (modulus as nat),
        forall|k: int|
            2 * common_pairs(old(p0_share).len() as nat, other_shares.len() as nat) <= k < old(p0_share).len() ==> final(p0_share)@[k] == old(p0_share)@[k],
{
    add_pairs_mod(p0_share, other_shares, modulus);
}

/// The centered representative chosen for one e-share: values in the upper
/// half are replaced by their negation modulo `modulus`.
pub open spec fn centered(e: nat, modulus: nat) -> int {
    if e >= modulus / 2 {
        (0 - e) % (modulus as int)
    } else {
        e as int
    }
}

/// Centering: every value `e` (two limbs each) with `e >= modulus / 2` is
/// replaced by `(-e) mod modulus`; smaller values are kept.
pub fn center_e_shares_u128(p0_e_share: &mut [u64], modulus: u128)
    requires
        modulus > 0,
    ensures
        final(p0_e_share).len() == old(p0_e_share).len(),
        forall|i: int|
            0 <= i < old(p0_e_share).len() / 2 ==> pair_at(final(p0_e_share)@, i) == centered(
                pair_at(old(p0_e_share)@, i),
                modulus as nat,
            ),
        forall|k: int|
            2 * (old(p0_e_share).len() / 2) <= k < old(p0_e_share).len() ==> final(p0_e_share)@[k] == old(p0_e_share)@[k],
{
    let half = modulus / 2;
    let count = p0_e_share.len() / 2;
    let ghost a0 = p0_e_share@;
    let mut i: usize = 0;
    while i < count
        invariant
            count == a0.len() / 2,
            half == modulus / 2,
            p0_e_share.len() == a0.len(),
            i <= count,
            modulus > 0,
            forall|j: int|
                0 <= j < i ==> pair_at(p0_e_share@, j) == centered(pair_at(a0, j), modulus as nat),
            forall|k: int| 2 * i <= k < p0_e_share.len() ==> p0_e_share@[k] == a0[k],
        decreases count - i,
    {
        let ghost prev = p0_e_share@;
        let mut arr = load_pair(p0_e_share, i);
        let ghost e0 = pair_value(arr);
        if read_u128(&arr) >= half {
            neg_mod_u128(&mut arr, modulus);
        }
        store_pair(p0_e_share, i, arr);
        proof {
            assert(pair_at(p0_e_share@, i as int) == centered(e0, modulus as nat));
            assert(pair_at(prev, i as int) == pair_at(a0, i as int));
            assert forall|j: int| 0 <= j < i + 1 implies pair_at(p0_e_share@, j) == centered(
                pair_at(a0, j),
                modulus as nat,
            ) by {
                if j < i {
                    assert(p0_e_share@[2 * j] == prev[2 * j]);
                    assert(p0_e_share@[2 * j + 1] == prev[2 * j + 1]);
                    assert(pair_at(p0_e_share@, j) == pair_at(prev, j));
                }
            }
        }
        i = i + 1;
    }
}

/// How many whole pairs three slices have in common.
pub open spec fn common_pairs3(a: nat, b: nat, c: nat) -> nat {
    common_pairs(2 * common_pairs(a, b), c)
}

/// Removes the error share and adds party 0's q'-random mask:
/// `value ← value - e + r_mod_q_prime (mod modulus)`, value by value.
pub fn sub_e_add_random_u128(
    value: &mut [u64],
    e: &[u64],
    r_mod_q_prime: &[u64],
    modulus: u128,
)
    requires
        modulus > 0,
    ensures
        final(value).len() == old(value).len(),
        forall|i: int|
            0 <= i < common_pairs3(
                old(value).len() as nat,
                e.len() as nat,
                r_mod_q_prime.len() as nat,
            ) ==> pair_at(final(value)@, i) == (pair_at(old(value)@, i) - pair_at(e@, i)
                + pair_at(r_mod_q_prime@, i)) % (modulus as int),
        forall|k: int|
            2 * common_pairs3(
                old(value).len() as nat,
                e.len() as nat,
                r_mod_q_prime.len() as nat,
            ) <= k < old(value).len() ==> final(value)@[k] == old(value)@[k],
{
    let c1 = if value.len() / 2 <= e.len() / 2 {
        value.len() / 2
    } else {
        e.len() / 2
    };
    let count = if c1 <= r_mod_q_prime.len() / 2 {
        c1
    } else {
        r_mod_q_prime.len() / 2
    };
    let ghost a0 = value@;
    let mut i: usize = 0;
    proof {
        assert((2 * c1) / 2 == c1);
    }
    while i < count
        invariant
            count == common_pairs3(a0.len() as nat, e.len() as nat, r_mod_q_prime.len() as nat),
            count <= a0.len() / 2,
            count <= e.len() / 2,
            count <= r_mod_q_prime.len() / 2,
            value.len() == a0.len(),
            i <= count,
            modulus > 0,
            forall|j: int|
                0 <= j < i ==> pair_at(value@, j) == (pair_at(a0, j) - pair_at(e@, j) + pair_at(
                    r_mod_q_prime@,
                    j,
                )) % (modulus as int),
            forall|k: int| 2 * i <= k < value.len() ==> value@[k] == a0[k],
        decreases count - i,
    {
        let ghost prev = value@;
        let mut v = load_pair(value, i);
        let ghost v0 = pair_value(v);
        let ea = load_pair(e, i);
        let ra = load_pair(r_mod_q_prime, i);
        sub_mod_u128(&mut v, &ea, modulus);
        add_mod_u128(&mut v, &ra, modulus);
        proof {
            lemma_add_mod(v0 - pair_value(ea), pair_value(ra) as int, modulus as int);
        }
        store_pair(value, i, v);
        proof {
            assert(pair_at(prev, i as int) == pair_at(a0, i as int));
            assert(pair_at(value@, i as int) == (pair_at(a0, i as int) - pair_at(e@, i as int)
                + pair_at(r_mod_q_prime@, i as int)) % (modulus as int));
            assert forall|j: int| 0 <= j < i + 1 implies pair_at(value@, j) == (pair_at(a0, j)
                - pair_at(e@, j) + pair_at(r_mod_q_prime@, j)) % (modulus as int) by {
                if j < i {
                    assert(value@[2 * j] == prev[2 * j]);
                    assert(value@[2 * j + 1] == prev[2 * j + 1]);
                    assert(pair_at(value@, j) == pair_at(prev, j));
                }
            }
        }
        i = i + 1;
    }
}

/// Converts a two-limb value to a commit coefficient: `round(value / dp)`
/// (halves rounded up), truncated to 32 bits.
pub fn final_value_to_commit_u128(big_uint_slot: &[u64], dp: u128) -> (r: u32)
    requires
        big_uint_slot.len() >= 2,
        dp > 0,
    ensures
        r == round_div(pair_at(big_uint_slot@, 0), dp as nat) % u32_modulus(),
{
    let b_val = big_uint_slot[0] as u128 + (big_uint_slot[1] as u128) * 0x1_0000_0000_0000_0000u128;
    let b_q = b_val / dp;
    let rem = b_val % dp;
    proof {
        lemma_fundamental_div_mod(b_val as int, dp as int);
        if dp == 1 {
            lemma_div_basics(b_val as int);
        } else {
            lemma_div_is_ordered_by_denominator(b_val as int, 2, dp as int);
        }
    }
    let rounded = if rem >= dp - rem {
        b_q + 1
    } else {
        b_q
    };
    (rounded % 0x1_0000_0000u128) as u32
}

/// The `c`-th chunk of `len` limbs of `s`.
pub open spec fn chunk(s: Seq<u64>, len: nat, c: int) -> Seq<u64> {
    s.subrange(c * len, c * len + len)
}

/// The value of the `c`-th chunk of `len` limbs of `s`.
pub open spec fn chunk_at(s: Seq<u64>, len: nat, c: int) -> nat {
    limbs_value(chunk(s, len, c))
}

/// Whether `s` and `t` agree outside the `c`-th chunk of `len` limbs.
pub open spec fn same_outside(s: Seq<u64>, t: Seq<u64>, len: nat, c: int) -> bool {
    &&& s.len() == t.len()
    &&& forall|k: int| 0 <= k < s.len() && !(c * len <= k < c * len + len) ==> s[k] == t[k]
}

pub(crate) proof fn lemma_chunk_bounds(len: nat, c: int, n: nat)
    requires
        0 <= c,
        (c + 1) * len <= n,
    ensures
        0 <= c * len,
        c * len + len <= n,
{
    lemma_mul_nonnegative(c, len as int);
    lemma_mul_is_distributive_add_other_way(len as int, c, 1);
}

/// Two sequences that agree outside chunk `c` have the same chunk `d != c`.
pub(crate) proof fn lemma_chunk_frame(s: Seq<u64>, t: Seq<u64>, len: nat, c: int, d: int)
    requires
        same_outside(s, t, len, c),
        0 <= c,
        0 <= d,
        c != d,
        (d + 1) * len <= s.len(),
    ensures
        chunk_at(s, len, d) == chunk_at(t, len, d),
{
    lemma_chunk_bounds(len, d, s.len());
    if d < c {
        lemma_mul_inequality(d + 1, c, len as int);
        lemma_mul_is_distributive_add_other_way(len as int, d, 1);
    } else {
        lemma_mul_inequality(c + 1, d, len as int);
        lemma_mul_is_distributive_add_other_way(len as int, c, 1);
    }
    assert(chunk(s, len, d) =~= chunk(t, len, d));
}

/// Copies out the `len` limbs of `s` starting at `start`.
pub(crate) fn read_chunk(s: &[u64], start: usize, len: usize) -> (r: Vec<u64>)
    requires
        start + len <= s.len(),
    ensures
        r@ == s@.subrange(start as int, start + len),
{
    let mut r: Vec<u64> = Vec::new();
    let mut i: usize = 0;
    while i < len
        invariant
            start + len <= s.len(),
            i <= len,
            r@ == s@.subrange(start as int, start + i),
        decreases len - i,
    {
        r.push(s[start + i]);
        i = i + 1;
        assert(r@ =~= s@.subrange(start as int, start + i));
    }
    r
}

/// Overwrites the limbs of `s` starting at `start` with `v`.
pub(crate) fn write_chunk(s: &mut [u64], start: usize, v: &[u64])
    requires
        start + v.len() <= old(s).len(),
    ensures
        final(s).len() == old(s).len(),
        final(s)@.subrange(start as int, start + v.len()) == v@,
        forall|k: int|
            0 <= k < old(s).len() && !(start <= k < start + v.len()) ==> final(s)@[k] == old(s)@[k],
{
    let n = v.len();
    let ghost s0 = s@;
    let mut i: usize = 0;
    while i < n
        invariant
            n == v.len(),
            start + n <= s.len(),
            s.len() == s0.len(),
            i <= n,
            forall|j: int| 0 <= j < i ==> s@[start + j] == v@[j],
            forall|k: int|
                0 <= k < s.len() && !(start <= k < start + i) ==> s@[k] == s0[k],
        decreases n - i,
    {
        s[start + i] = v[i];
        i = i + 1;
    }
    assert(s@.subrange(start as int, start + n) =~= v@);
}

/// `dst` chunk `dc ← (dst chunk dc + src chunk sc) mod m`, on residues.
pub(crate) fn add_chunk_mod(dst: &mut [u64], dc: usize, src: &[u64], sc: usize, len: usize, m: &[u64])
    requires
        len == m.len(),
        (dc + 1) * len <= old(dst).len(),
        (sc + 1) * len <= src.len(),
        chunk_at(old(dst)@, len as nat, dc as int) < value_of(m),
        chunk_at(src@, len as nat, sc as int) < value_of(m),
    ensures
        same_outside(final(dst)@, old(dst)@, len as nat, dc as int),
        chunk_at(final(dst)@, len as nat, dc as int) == (chunk_at(old(dst)@, len as nat, dc as int)
            + chunk_at(src@, len as nat, sc as int)) % value_of(m),
        chunk_at(final(dst)@, len as nat, dc as int) < value_of(m),
{
    proof {
        lemma_chunk_bounds(len as nat, dc as int, dst.len() as nat);
        lemma_chunk_bounds(len as nat, sc as int, src.len() as nat);
    }
    let mut x = read_chunk(dst, dc * len, len);
    let y = read_chunk(src, sc * len, len);
    add_modulo_assign(x.as_mut_slice(), y.as_slice(), m);
    write_chunk(dst, dc * len, x.as_slice());
}

/// `dst` chunk `dc ← (dst chunk dc - src chunk sc) mod m`, on residues.
pub(crate) fn sub_chunk_mod(dst: &mut [u64], dc: usize, src: &[u64], sc: usize, len: usize, m: &[u64])
    requires
        len == m.len(),
        (dc + 1) * len <= old(dst).len(),
        (sc + 1) * len <= src.len(),
        chunk_at(old(dst)@, len as nat, dc as int) < value_of(m),
        chunk_at(src@, len as nat, sc as int) < value_of(m),
    ensures
        same_outside(final(dst)@, old(dst)@, len as nat, dc as int),
        chunk_at(final(dst)@, len as nat, dc as int) == (chunk_at(old(dst)@, len as nat, dc as int)
            - chunk_at(src@, len as nat, sc as int)) % (value_of(m) as int),
        chunk_at(final(dst)@, len as nat, dc as int) < value_of(m),
{
    proof {
        lemma_chunk_bounds(len as nat, dc as int, dst.len() as nat);
        lemma_chunk_bounds(len as nat, sc as int, src.len() as nat);
    }
    let mut x = read_chunk(dst, dc * len, len);
    let y = read_chunk(src, sc * len, len);
    sub_modulo_assign(x.as_mut_slice(), y.as_slice(), m);
    write_chunk(dst, dc * len, x.as_slice());
}

/// Value `c` (of `len` limbs) of the `t`-th share of `share_len` limbs in `s`.
pub open spec fn share_value(s: Seq<u64>, share_len: nat, len: nat, t: int, c: int) -> nat {
    limbs_value(s.subrange(t * share_len + c * len, t * share_len + c * len + len))
}

/// The sum of value `c` over the first `n` shares of `share_len` limbs in `s`.
pub open spec fn share_value_sum(s: Seq<u64>, share_len: nat, len: nat, c: int, n: nat) -> nat
    decreases n,
{
    if n == 0 {
        0
    } else {
        share_value_sum(s, share_len, len, c, (n - 1) as nat) + share_value(s, share_len, len, n - 1, c)
    }
}

/// How many whole shares of `share_len` limbs a slice of `n` limbs holds.
pub open spec fn whole_shares(n: nat, share_len: nat) -> nat {
    if share_len == 0 {
        0
    } else {
        n / share_len
    }
}

pub(crate) proof fn lemma_chunk_count(n: nat, len: nat, c: int)
    requires
        len > 0,
        0 <= c < n / len,
    ensures
        (c + 1) * len <= n,
{
    lemma_fundamental_div_mod(n as int, len as int);
    lemma_mul_inequality(c + 1, (n / len) as int, len as int);
    lemma_mul_is_commutative(len as int, (n / len) as int);
}

/// `p0 ← p0 + Σ others (mod m)` value by value: `others` holds whole shares
/// as long as `p0`, one per party, and value `c` of each is added into value
/// `c` of `p0`.
fn aggregate_shares_biguint(p0: &mut [u64], others: &[u64], m: &[u64], len: usize)
    requires
        len > 0,
        m.len() == len,
        forall|c: int|
            0 <= c < old(p0).len() as nat / len as nat ==> chunk_at(old(p0)@, len as nat, c)
                < value_of(m),
        forall|t: int, c: int|
            0 <= t < whole_shares(others.len() as nat, old(p0).len() as nat) && 0 <= c < old(
                p0,
            ).len() as nat / len as nat ==> #[trigger] share_value(
                others@,
                old(p0).len() as nat,
                len as nat,
                t,
                c,
            ) < value_of(m),
    ensures
        final(p0).len() == old(p0).len(),
        forall|c: int|
            0 <= c < old(p0).len() as nat / len as nat ==> chunk_at(final(p0)@, len as nat, c) == (
            chunk_at(old(p0)@, len as nat, c) + share_value_sum(
                others@,
                old(p0).len() as nat,
                len as nat,
                c,
                whole_shares(others.len() as nat, old(p0).len() as nat),
            )) % value_of(m),
        forall|k: int|
            (old(p0).len() as nat / len as nat) * len <= k < old(p0).len() ==> final(p0)@[k] == old(
                p0,
            )@[k],
{
    let sl = p0.len();
    let cc = sl / len;
    let shares = if sl == 0 {
        0
    } else {
        others.len() / sl
    };
    let ghost p00 = p0@;
    let ghost ln = len as nat;
    let ghost sn = sl as nat;
    let ghost vm = value_of(m);
    let mut t: usize = 0;
    proof {
        assert forall|c: int| 0 <= c < cc implies chunk_at(p0@, ln, c) == (chunk_at(p00, ln, c)
            + share_value_sum(others@, sn, ln, c, 0)) % vm by {
            lemma_small_mod(chunk_at(p00, ln, c), vm);
        }
        if sl > 0 {
            lemma_fundamental_div_mod(others.len() as int, sl as int);
            lemma_mul_is_commutative(sl as int, shares as int);
        }
        lemma_fundamental_div_mod(sl as int, len as int);
        lemma_mul_is_commutative(len as int, cc as int);
        assert forall|u: int, c: int| 0 <= u < shares && 0 <= c < cc implies #[trigger] share_value(
            others@,
            sn,
            ln,
            u,
            c,
        ) < vm by {
            assert(p00 == old(p0)@);
            assert(shares == whole_shares(others.len() as nat, old(p0).len() as nat));
            assert(cc == old(p0).len() as nat / len as nat);
            assert(share_value(others@, old(p0).len() as nat, len as nat, u, c) < value_of(m));
        }
    }
    while t < shares
        invariant
            shares == whole_shares(others.len() as nat, sn),
            shares * sl <= others.len(),
            sn == sl,
            sl == p00.len(),
            cc == sn / ln,
            cc * len <= sl,
            ln == len,
            len > 0,
            m.len() == len,
            vm == value_of(m),
            p0.len() == p00.len(),
            t <= shares,
            forall|u: int, c: int|
                0 <= u < shares && 0 <= c < cc ==> #[trigger] share_value(others@, sn, ln, u, c) < vm,
            forall|c: int|
                0 <= c < cc ==> chunk_at(p0@, ln, c) == (chunk_at(p00, ln, c) + share_value_sum(
                    others@,
                    sn,
                    ln,
                    c,
                    t as nat,
                )) % vm,
            forall|c: int| 0 <= c < cc ==> chunk_at(p0@, ln, c) < vm,
            forall|k: int| cc * len <= k < p0.len() ==> p0@[k] == p00[k],
        decreases shares - t,
    {
        proof {
            lemma_mul_inequality(t as int + 1, shares as int, sl as int);
            lemma_mul_is_distributive_add_other_way(sl as int, t as int, 1);
        }
        let start = t * sl;
        let share = &others[start..start + sl];
        let ghost pt = p0@;
        let mut c: usize = 0;
        while c < cc
            invariant
                cc == sn / ln,
                cc * len <= sl,
                sn == sl,
                share.len() == sl,
                start + sl <= others.len(),
                share@ == others@.subrange(start as int, start + sl),
                start == t * sl,
                t < shares,
                ln == len,
                len > 0,
                m.len() == len,
                vm == value_of(m),
                p0.len() == p00.len(),
                sl == p00.len(),
                c <= cc,
                forall|u: int, d: int|
                    0 <= u < shares && 0 <= d < cc ==> #[trigger] share_value(others@, sn, ln, u, d)
                        < vm,
                forall|d: int| 0 <= d < cc ==> chunk_at(pt, ln, d) < vm,
                forall|d: int|
                    0 <= d < c ==> chunk_at(p0@, ln, d) == (chunk_at(pt, ln, d) + share_value(
                        others@,
                        sn,
                        ln,
                        t as int,
                        d,
                    )) % vm,
                forall|d: int| c <= d < cc ==> chunk_at(p0@, ln, d) == chunk_at(pt, ln, d),
                forall|d: int| 0 <= d < cc ==> chunk_at(p0@, ln, d) < vm,
                forall|k: int| cc * len <= k < p0.len() ==> p0@[k] == pt[k],
            decreases cc - c,
        {
            let ghost before = p0@;
            proof {
                lemma_chunk_count(sn, ln, c as int);
                lemma_chunk_bounds(ln, c as int, sn);
                assert(t * sn == start);
                assert(chunk(share@, ln, c as int) =~= others@.subrange(
                    t * sn + c * ln,
                    t * sn + c * ln + ln,
                ));
                assert(chunk_at(share@, ln, c as int) == share_value(others@, sn, ln, t as int, c as int));
                assert(chunk_at(before, ln, c as int) == chunk_at(pt, ln, c as int));
            }
            add_chunk_mod(p0, c, share, c, len, m);
            proof {
                assert forall|d: int| 0 <= d < cc && d != c implies chunk_at(p0@, ln, d) == chunk_at(
                    before,
                    ln,
                    d,
                ) by {
                    lemma_chunk_count(sn, ln, d);
                    lemma_chunk_frame(p0@, before, ln, c as int, d);
                }
                assert forall|k: int| cc * len <= k < p0.len() implies p0@[k] == pt[k] by {
                    lemma_mul_inequality(c as int + 1, cc as int, len as int);
                    lemma_mul_is_distributive_add_other_way(len as int, c as int, 1);
                }
                assert forall|d: int| 0 <= d < c + 1 implies chunk_at(p0@, ln, d) == (chunk_at(
                    pt,
                    ln,
                    d,
                ) + share_value(others@, sn, ln, t as int, d)) % vm by {
                    if d < c {
                        assert(chunk_at(p0@, ln, d) == chunk_at(before, ln, d));
                    }
                }
                assert forall|d: int| c + 1 <= d < cc implies chunk_at(p0@, ln, d) == chunk_at(
                    pt,
                    ln,
                    d,
                ) by {
                    assert(chunk_at(p0@, ln, d) == chunk_at(before, ln, d));
                }
                assert forall|d: int| 0 <= d < cc implies chunk_at(p0@, ln, d) < vm by {
                    if d != c {
                        assert(chunk_at(p0@, ln, d) == chunk_at(before, ln, d));
                    }
                }
            }
            c = c + 1;
        }
        proof {
            assert forall|d: int| 0 <= d < cc implies chunk_at(p0@, ln, d) == (chunk_at(p00, ln, d)
                + share_value_sum(others@, sn, ln, d, (t + 1) as nat)) % vm by {
                lemma_add_mod(
                    (chunk_at(p00, ln, d) + share_value_sum(others@, sn, ln, d, t as nat)) as int,
                    share_value(others@, sn, ln, t as int, d) as int,
                    vm as int,
                );
                assert(share_value_sum(others@, sn, ln, d, (t + 1) as nat) == share_value_sum(
                    others@,
                    sn,
                    ln,
                    d,
                    t as nat,
                ) + share_value(others@, sn, ln, t as int, d));
            }
        }
        t = t + 1;
    }
}

/// Aggregates e-shares (multi-limb fallback): `other_e_shares` holds the other
/// parties' e-shares, each as long as `p0_e_share`; value by value (each of
/// `big_uint_value_len` limbs), they are added into `p0_e_share` modulo
/// `delta_prime`.
pub fn aggregate_e_shares_biguint(
    p0_e_share: &mut [u64],
    other_e_shares: &[u64],
    delta_prime: &[u64],
    big_uint_value_len: usize,
)
    requires
        big_uint_value_len > 0,
        delta_prime.len() == big_uint_value_len,
        forall|c: int|
            0 <= c < old(p0_e_share).len() as nat / big_uint_value_len as nat ==> chunk_at(
                old(p0_e_share)@,
                big_uint_value_len as nat,
                c,
            ) < value_of(delta_prime),
        forall|t: int, c: int|
            0 <= t < whole_shares(other_e_shares.len() as nat, old(p0_e_share).len() as nat) && 0
                <= c < old(p0_e_share).len() as nat / big_uint_value_len as nat
                ==> #[trigger] share_value(
                other_e_shares@,
                old(p0_e_share).len() as nat,
                big_uint_value_len as nat,
                t,
                c,
            ) < value_of(delta_prime),
    ensures
        final(p0_e_share).len() == old(p0_e_share).len(),
        forall|c: int|
            0 <= c < old(p0_e_share).len() as nat / big_uint_value_len as nat ==> chunk_at(
                final(p0_e_share)@,
                big_uint_value_len as nat,
                c,
            ) == (chunk_at(old(p0_e_share)@, big_uint_value_len as nat, c) + share_value_sum(
                other_e_shares@,
                old(p0_e_share).len() as nat,
                big_uint_value_len as nat,
                c,
                whole_shares(other_e_shares.len() as nat, old(p0_e_share).len() as nat),
            )) % value_of(delta_prime),
        forall|k: int|
            (old(p0_e_share).len() as nat / big_uint_value_len as nat) * big_uint_value_len <= k
                < old(p0_e_share).len() ==> final(p0_e_share)@[k] == old(p0_e_share)@[k],
{
    aggregate_shares_biguint(p0_e_share, other_e_shares, delta_prime, big_uint_value_len);
}

/// Aggregates value shares (multi-limb fallback), as `aggregate_e_shares_biguint`
/// does, modulo `q_prime`.
pub fn aggregate_value_shares_biguint(
    p0_share: &mut [u64],
    other_shares: &[u64],
    q_prime: &[u64],
    big_uint_value_len: usize,
)
    requires
        big_uint_value_len > 0,
        q_prime.len() == big_uint_value_len,
        forall|c: int|
            0 <= c < old(p0_share).len() as nat / big_uint_value_len as nat ==> chunk_at(
                old(p0_share)@,
                big_uint_value_len as nat,
                c,
            ) < value_of(q_prime),
        forall|t: int, c: int|
            0 <= t < whole_shares(other_shares.len() as nat, old(p0_share).len() as nat) && 0 <= c
                < old(p0_share).len() as nat / big_uint_value_len as nat ==> #[trigger] share_value(
                other_shares@,
                old(p0_share).len() as nat,
                big_uint_value_len as nat,
                t,
                c,
            ) < value_of(q_prime),
    ensures
        final(p0_share).len() == old(p0_share).len(),
        forall|c: int|
            0 <= c < old(p0_share).len() as nat / big_uint_value_len as nat ==> chunk_at(
                final(p0_share)@,
                big_uint_value_len as nat,
                c,
            ) == (chunk_at(old(p0_share)@, big_uint_value_len as nat, c) + share_value_sum(
                other_shares@,
                old(p0_share).len() as nat,
                big_uint_value_len as nat,
                c,
                whole_shares(other_shares.len() as nat, old(p0_share).len() as nat),
            )) % value_of(q_prime),
        forall|k: int|
            (old(p0_share).len() as nat / big_uint_value_len as nat) * big_uint_value_len <= k
                < old(p0_share).len() ==> final(p0_share)@[k] == old(p0_share)@[k],
{
    aggregate_shares_biguint(p0_share, other_shares, q_prime, big_uint_value_len);
}

/// After chunk `c` of `count` changed, the other chunks and everything past
/// the `count` chunks are as before.
pub(crate) proof fn lemma_update_chunk(before: Seq<u64>, after: Seq<u64>, ln: nat, c: int, count: nat)
    requires
        same_outside(after, before, ln, c),
        ln > 0,
        0 <= c < count,
        count <= before.len() / ln,
    ensures
        forall|d: int| 0 <= d < count && d != c ==> chunk_at(after, ln, d) == chunk_at(before, ln, d),
        forall|k: int| count * ln <= k < before.len() ==> after[k] == before[k],
{
    assert forall|d: int| 0 <= d < count && d != c implies chunk_at(after, ln, d) == chunk_at(
        before,
        ln,
        d,
    ) by {
        lemma_chunk_count(before.len(), ln, d);
        lemma_chunk_frame(after, before, ln, c, d);
    }
    assert forall|k: int| count * ln <= k < before.len() implies after[k] == before[k] by {
        lemma_mul_inequality(c + 1, count as int, ln as int);
        lemma_mul_is_distributive_add_other_way(ln as int, c, 1);
    }
}

/// The centered representative of one multi-limb e-share.
pub open spec fn centered_by(e: nat, half: nat, modulus: nat) -> int {
    if e >= half {
        (0 - e) % (modulus as int)
    } else {
        e as int
    }
}

/// Centering (multi-limb fallback): every value of `big_uint_value_len` limbs
/// that is at least `delta_prime_half` is replaced by its negation modulo
/// `delta_prime`; smaller values are kept.
pub fn center_e_shares_biguint(
    p0_e_share: &mut [u64],
    delta_prime_half: &[u64],
    delta_prime: &[u64],
    big_uint_value_len: usize,
)
    requires
        big_uint_value_len > 0,
        delta_prime_half.len() == big_uint_value_len,
        delta_prime.len() == big_uint_value_len,
        forall|c: int|
            0 <= c < old(p0_e_share).len() as nat / big_uint_value_len as nat ==> chunk_at(
                old(p0_e_share)@,
                big_uint_value_len as nat,
                c,
            ) < value_of(delta_prime),
    ensures
        final(p0_e_share).len() == old(p0_e_share).len(),
        forall|c: int|
            0 <= c < old(p0_e_share).len() as nat / big_uint_value_len as nat ==> chunk_at(
                final(p0_e_share)@,
                big_uint_value_len as nat,
                c,
            ) == centered_by(
                chunk_at(old(p0_e_share)@, big_uint_value_len as nat, c),
                value_of(delta_prime_half),
                value_of(delta_prime),
            ),
        forall|k: int|
            (old(p0_e_share).len() as nat / big_uint_value_len as nat) * big_uint_value_len <= k < old(p0_e_share).len() ==> final(p0_e_share)@[k] == old(p0_e_share)@[k],
{
    let len = big_uint_value_len;
    let count = p0_e_share.len() / len;
    let ghost ln = len as nat;
    let ghost a0 = p0_e_share@;
    let mut c: usize = 0;
    while c < count
        invariant
            ln == len,
            len > 0,
            count == a0.len() / ln,
            delta_prime_half.len() == len,
            delta_prime.len() == len,
            p0_e_share.len() == a0.len(),
            c <= count,
            forall|d: int| 0 <= d < count ==> chunk_at(a0, ln, d) < value_of(delta_prime),
            forall|d: int|
                0 <= d < c ==> chunk_at(p0_e_share@, ln, d) == centered_by(
                    chunk_at(a0, ln, d),
                    value_of(delta_prime_half),
                    value_of(delta_prime),
                ),
            forall|d: int| c <= d < count ==> chunk_at(p0_e_share@, ln, d) == chunk_at(a0, ln, d),
            forall|k: int| count * len <= k < p0_e_share.len() ==> p0_e_share@[k] == a0[k],
        decreases count - c,
    {
        let ghost before = p0_e_share@;
        proof {
            lemma_chunk_count(a0.len(), ln, c as int);
            lemma_chunk_bounds(ln, c as int, a0.len());
        }
        let mut x = read_chunk(p0_e_share, c * len, len);
        proof {
            assert(x@ =~= chunk(before, ln, c as int));
            assert(chunk_at(before, ln, c as int) == chunk_at(a0, ln, c as int));
        }
        if limbs_ge(x.as_slice(), delta_prime_half) {
            neg_modulo_assign(x.as_mut_slice(), delta_prime);
        }
        write_chunk(p0_e_share, c * len, x.as_slice());
        proof {
            assert(chunk(p0_e_share@, ln, c as int) =~= x@);
            assert(same_outside(p0_e_share@, before, ln, c as int));
            lemma_update_chunk(before, p0_e_share@, ln, c as int, count as nat);
            assert forall|d: int| 0 <= d < c + 1 implies chunk_at(p0_e_share@, ln, d)
                == centered_by(chunk_at(a0, ln, d), value_of(delta_prime_half), value_of(delta_prime)) by {
                if d < c {
                    assert(chunk_at(p0_e_share@, ln, d) == chunk_at(before, ln, d));
                }
            }
            assert forall|d: int| c + 1 <= d < count implies chunk_at(p0_e_share@, ln, d)
                == chunk_at(a0, ln, d) by {
                assert(chunk_at(p0_e_share@, ln, d) == chunk_at(before, ln, d));
            }
        }
        c = c + 1;
    }
}

/// The number of chunks of `len` limbs three slices have in common.
pub open spec fn common_chunks3(a: nat, b: nat, c: nat, len: nat) -> nat {
    let ab = if a / len <= b / len {
        a / len
    } else {
        b / len
    };
    if ab <= c / len {
        ab
    } else {
        c / len
    }
}

/// Removes the error share and adds party 0's q'-random mask (multi-limb
/// fallback): `value ← value - e + r_mod_q_prime (mod q_prime)`, value by value.
pub fn sub_e_add_random_biguint(
    value: &mut [u64],
    e: &[u64],
    r_mod_q_prime: &[u64],
    q_prime: &[u64],
    big_uint_value_len: usize,
)
    requires
        big_uint_value_len > 0,
        q_prime.len() == big_uint_value_len,
        forall|c: int|
            0 <= c < common_chunks3(
                old(value).len() as nat,
                e.len() as nat,
                r_mod_q_prime.len() as nat,
                big_uint_value_len as nat,
            ) ==> chunk_at(old(value)@, big_uint_value_len as nat, c) < value_of(q_prime),
        forall|c: int|
            0 <= c < common_chunks3(
                old(value).len() as nat,
                e.len() as nat,
                r_mod_q_prime.len() as nat,
                big_uint_value_len as nat,
            ) ==> chunk_at(e@, big_uint_value_len as nat, c) < value_of(q_prime),
        forall|c: int|
            0 <= c < common_chunks3(
                old(value).len() as nat,
                e.len() as nat,
                r_mod_q_prime.len() as nat,
                big_uint_value_len as nat,
            ) ==> chunk_at(r_mod_q_prime@, big_uint_value_len as nat, c) < value_of(q_prime),
    ensures
        final(value).len() == old(value).len(),
        forall|c: int|
            0 <= c < common_chunks3(
                old(value).len() as nat,
                e.len() as nat,
                r_mod_q_prime.len() as nat,
                big_uint_value_len as nat,
            ) ==> chunk_at(final(value)@, big_uint_value_len as nat, c) == (chunk_at(
                old(value)@,
                big_uint_value_len as nat,
                c,
            ) - chunk_at(e@, big_uint_value_len as nat, c) + chunk_at(
                r_mod_q_prime@,
                big_uint_value_len as nat,
                c,
            )) % (value_of(q_prime) as int),
        forall|k: int|
            common_chunks3(
                old(value).len() as nat,
                e.len() as nat,
                r_mod_q_prime.len() as nat,
                big_uint_value_len as nat,
            ) * big_uint_value_len <= k < old(value).len() ==> final(value)@[k] == old(value)@[k],
{
    let len = big_uint_value_len;
    let ab = if value.len() / len <= e.len() / len {
        value.len() / len
    } else {
        e.len() / len
    };
    let count = if ab <= r_mod_q_prime.len() / len {
        ab
    } else {
        r_mod_q_prime.len() / len
    };
    let ghost ln = len as nat;
    let ghost a0 = value@;
    let ghost vq = value_of(q_prime);
    let mut c: usize = 0;
    proof {
        assert(count == common_chunks3(a0.len(), e.len() as nat, r_mod_q_prime.len() as nat, ln));
        assert forall|d: int| 0 <= d < count implies chunk_at(a0, ln, d) < vq && chunk_at(e@, ln, d)
            < vq && chunk_at(r_mod_q_prime@, ln, d) < vq by {
            assert(chunk_at(a0, big_uint_value_len as nat, d) < value_of(q_prime));
        }
    }
    while c < count
        invariant
            ln == len,
            len > 0,
            count == common_chunks3(a0.len(), e.len() as nat, r_mod_q_prime.len() as nat, ln),
            count <= a0.len() / ln,
            count <= e.len() as nat / ln,
            count <= r_mod_q_prime.len() as nat / ln,
            q_prime.len() == len,
            vq == value_of(q_prime),
            value.len() == a0.len(),
            c <= count,
            forall|d: int| 0 <= d < count ==> chunk_at(a0, ln, d) < vq,
            forall|d: int| 0 <= d < count ==> chunk_at(e@, ln, d) < vq,
            forall|d: int| 0 <= d < count ==> chunk_at(r_mod_q_prime@, ln, d) < vq,
            forall|d: int|
                0 <= d < c ==> chunk_at(value@, ln, d) == (chunk_at(a0, ln, d) - chunk_at(
                    e@,
                    ln,
                    d,
                ) + chunk_at(r_mod_q_prime@, ln, d)) % (vq as int),
            forall|d: int| c <= d < count ==> chunk_at(value@, ln, d) == chunk_at(a0, ln, d),
            forall|k: int| count * len <= k < value.len() ==> value@[k] == a0[k],
        decreases count - c,
    {
        let ghost before = value@;
        proof {
            lemma_chunk_count(a0.len(), ln, c as int);
            lemma_chunk_count(e.len() as nat, ln, c as int);
            lemma_chunk_count(r_mod_q_prime.len() as nat, ln, c as int);
        }
        proof {
            assert(chunk_at(before, ln, c as int) == chunk_at(a0, ln, c as int));
            assert(chunk_at(a0, ln, c as int) < vq);
            assert(chunk_at(e@, ln, c as int) < vq);
            assert(chunk_at(r_mod_q_prime@, ln, c as int) < vq);
        }
        sub_chunk_mod(value, c, e, c, len, q_prime);
        let ghost mid = value@;
        proof {
            lemma_update_chunk(before, mid, ln, c as int, count as nat);
        }
        add_chunk_mod(value, c, r_mod_q_prime, c, len, q_prime);
        proof {
            lemma_update_chunk(mid, value@, ln, c as int, count as nat);
            lemma_add_mod(
                chunk_at(before, ln, c as int) - chunk_at(e@, ln, c as int),
                chunk_at(r_mod_q_prime@, ln, c as int) as int,
                vq as int,
            );
            assert forall|d: int| 0 <= d < c + 1 implies chunk_at(value@, ln, d) == (chunk_at(
                a0,
                ln,
                d,
            ) - chunk_at(e@, ln, d) + chunk_at(r_mod_q_prime@, ln, d)) % (vq as int) by {
                if d < c {
                    assert(chunk_at(value@, ln, d) == chunk_at(mid, ln, d));
                    assert(chunk_at(mid, ln, d) == chunk_at(before, ln, d));
                }
            }
            assert forall|d: int| c + 1 <= d < count implies chunk_at(value@, ln, d) == chunk_at(
                a0,
                ln,
                d,
            ) by {
                assert(chunk_at(value@, ln, d) == chunk_at(mid, ln, d));
                assert(chunk_at(mid, ln, d) == chunk_at(before, ln, d));
            }
        }
        c = c + 1;
    }
}

/// The number of chunks of `len` limbs two slices have in common.
pub open spec fn common_chunks(a: nat, b: nat, len: nat) -> nat {
    if a / len <= b / len {
        a / len
    } else {
        b / len
    }
}

/// Adds the q'-random mask (multi-limb fallback):
/// `value ← value + r_mod_q_prime (mod q_prime)`, value by value.
pub fn add_random_biguint(
    value: &mut [u64],
    r_mod_q_prime: &[u64],
    q_prime: &[u64],
    big_uint_value_len: usize,
)
    requires
        big_uint_value_len > 0,
        q_prime.len() == big_uint_value_len,
        forall|c: int|
            0 <= c < common_chunks(
                old(value).len() as nat,
                r_mod_q_prime.len() as nat,
                big_uint_value_len as nat,
            ) ==> chunk_at(old(value)@, big_uint_value_len as nat, c) < value_of(q_prime),
        forall|c: int|
            0 <= c < common_chunks(
                old(value).len() as nat,
                r_mod_q_prime.len() as nat,
                big_uint_value_len as nat,
            ) ==> chunk_at(r_mod_q_prime@, big_uint_value_len as nat, c) < value_of(q_prime),
    ensures
        final(value).len() == old(value).len(),
        forall|c: int|
            0 <= c < common_chunks(
                old(value).len() as nat,
                r_mod_q_prime.len() as nat,
                big_uint_value_len as nat,
            ) ==> chunk_at(final(value)@, big_uint_value_len as nat, c) == (chunk_at(
                old(value)@,
                big_uint_value_len as nat,
                c,
            ) + chunk_at(r_mod_q_prime@, big_uint_value_len as nat, c)) % value_of(q_prime),
        forall|k: int|
            common_chunks(
                old(value).len() as nat,
                r_mod_q_prime.len() as nat,
                big_uint_value_len as nat,
            ) * big_uint_value_len <= k < old(value).len() ==> final(value)@[k] == old(value)@[k],
{
    let len = big_uint_value_len;
    let count = if value.len() / len <= r_mod_q_prime.len() / len {
        value.len() / len
    } else {
        r_mod_q_prime.len() / len
    };
    let ghost ln = len as nat;
    let ghost a0 = value@;
    let ghost vq = value_of(q_prime);
    let mut c: usize = 0;
    proof {
        assert forall|d: int| 0 <= d < count implies chunk_at(a0, ln, d) < vq && chunk_at(
            r_mod_q_prime@,
            ln,
            d,
        ) < vq by {
            assert(chunk_at(a0, big_uint_value_len as nat, d) < value_of(q_prime));
        }
    }
    while c < count
        invariant
            ln == len,
            len > 0,
            count == common_chunks(a0.len(), r_mod_q_prime.len() as nat, ln),
            count <= a0.len() / ln,
            count <= r_mod_q_prime.len() as nat / ln,
            q_prime.len() == len,
            vq == value_of(q_prime),
            value.len() == a0.len(),
            c <= count,
            forall|d: int| 0 <= d < count ==> chunk_at(a0, ln, d) < vq,
            forall|d: int| 0 <= d < count ==> chunk_at(r_mod_q_prime@, ln, d) < vq,
            forall|d: int|
                0 <= d < c ==> chunk_at(value@, ln, d) == (chunk_at(a0, ln, d) + chunk_at(
                    r_mod_q_prime@,
                    ln,
                    d,
                )) % vq,
            forall|d: int| c <= d < count ==> chunk_at(value@, ln, d) == chunk_at(a0, ln, d),
            forall|k: int| count * len <= k < value.len() ==> value@[k] == a0[k],
        decreases count - c,
    {
        let ghost before = value@;
        proof {
            lemma_chunk_count(a0.len(), ln, c as int);
            lemma_chunk_count(r_mod_q_prime.len() as nat, ln, c as int);
        }
        proof {
            assert(chunk_at(before, ln, c as int) == chunk_at(a0, ln, c as int));
            assert(chunk_at(a0, ln, c as int) < vq);
            assert(chunk_at(r_mod_q_prime@, ln, c as int) < vq);
        }
        add_chunk_mod(value, c, r_mod_q_prime, c, len, q_prime);
        proof {
            lemma_update_chunk(before, value@, ln, c as int, count as nat);
            assert forall|d: int| 0 <= d < c + 1 implies chunk_at(value@, ln, d) == (chunk_at(
                a0,
                ln,
                d,
            ) + chunk_at(r_mod_q_prime@, ln, d)) % vq by {
                if d < c {
                    assert(chunk_at(value@, ln, d) == chunk_at(before, ln, d));
                }
            }
            assert forall|d: int| c + 1 <= d < count implies chunk_at(value@, ln, d) == chunk_at(
                a0,
                ln,
                d,
            ) by {
                assert(chunk_at(value@, ln, d) == chunk_at(before, ln, d));
            }
        }
        c = c + 1;
    }
}

/// Modulus switching with the multi-limb fallback: `value ← round(value ·
/// q' / q)` (halves rounded up, kept to the limbs `value` has), then
/// `e ← (round(value · q' / q) mod Δ' + r_Δ') mod Δ'`. The q'-random is added
/// separately, after the network round.
pub fn scale_round_mod_biguint(
    value: &mut [u64],
    e: &mut [u64],
    r_mod_delta_prime: &[u64],
    q_big: &[u64],
    q_prime_big: &[u64],
    delta_prime_big: &[u64],
    delta_prime: &[u64],
    _big_uint_value_len: usize,
)
    requires
        value_of(q_big) > 0,
        value_of(delta_prime_big) == value_of(delta_prime),
        value_of(delta_prime) > 0,
        delta_prime.len() <= old(e).len(),
        r_mod_delta_prime.len() == old(e).len(),
        value_of(r_mod_delta_prime) < value_of(delta_prime),
    ensures
        final(value).len() == old(value).len(),
        final(e).len() == old(e).len(),
        value_of(final(value)) == round_div(
            value_of(old(value)) * value_of(q_prime_big),
            value_of(q_big),
        ) % pow64(old(value).len() as nat),
        value_of(final(e)) == (round_div(
            value_of(old(value)) * value_of(q_prime_big),
            value_of(q_big),
        ) % value_of(delta_prime) + value_of(r_mod_delta_prime)) % value_of(delta_prime),
{
    let ghost x = value_of(value) * value_of(q_prime_big);
    let temp = num_mul(value, q_prime_big);
    let (quot, rem) = num_div_rem(temp.as_slice(), q_big);
    let rounded = if limbs_double_ge(rem.as_slice(), q_big) {
        limbs_increment(quot.as_slice())
    } else {
        quot
    };
    store_truncated(value, rounded.as_slice());
    let (_, reduced) = num_div_rem(rounded.as_slice(), delta_prime_big);
    store_truncated(e, reduced.as_slice());
    let modulus = limbs_pad(delta_prime, e.len());
    proof {
        lemma_limbs_bound(modulus@);
        lemma_small_mod(limbs_value(reduced@), pow64(modulus.len() as nat));
    }
    add_modulo_assign(e, r_mod_delta_prime, modulus.as_slice());
}

/// Converts a multi-limb value to a commit coefficient (multi-limb fallback):
/// `round(value / delta_prime)` (halves rounded up), truncated to 32 bits.
pub fn final_value_to_commit_biguint(big_uint_value: &[u64], delta_prime_big: &[u64]) -> (r: u32)
    requires
        value_of(delta_prime_big) > 0,
    ensures
        r == round_div(value_of(big_uint_value), value_of(delta_prime_big)) % u32_modulus(),
{
    let (b, rem) = num_div_rem(big_uint_value, delta_prime_big);
    let inc: u64 = if limbs_double_ge(rem.as_slice(), delta_prime_big) {
        1
    } else {
        0
    };
    let low: u64 = if b.len() > 0 {
        b[0] % 0x1_0000_0000
    } else {
        0
    };
    proof {
        let vb = limbs_value(b@);
        if b.len() > 0 {
            lemma_limbs_split(b@, 1);
            lemma_limbs_short(b@.take(1));
            crate::limbs::lemma_pow64_small();
            let rest = limbs_value(b@.skip(1));
            assert(b@.take(1)[0] == b[0]);
            assert(pow64(1) * rest == base() * rest);
            assert(vb == b[0] + 0x1_0000_0000 * (0x1_0000_0000 * rest)) by (nonlinear_arith)
                requires
                    vb == b[0] + base() * rest,
                    base() == 0x1_0000_0000_0000_0000,
            ;
            lemma_mod_multiples_vanish((0x1_0000_0000 * rest) as int, b[0] as int, 0x1_0000_0000);
        } else {
            assert(b@ =~= Seq::<u64>::empty());
        }
        assert(low == vb % 0x1_0000_0000);
        lemma_add_mod(vb as int, inc as int, 0x1_0000_0000);
    }
    ((low + inc) % 0x1_0000_0000) as u32
}

/// Rounding `v · q' / q` for `v < q <= q'` stays below `q'`.
proof fn lemma_round_below(v: nat, q: nat, qp: nat)
    requires
        v < q,
        q <= qp,
    ensures
        round_div(v * qp, q) < qp,
{
    let x = v * qp;
    lemma_fundamental_div_mod(x as int, q as int);
    assert(x <= q * qp - qp) by (nonlinear_arith)
        requires
            x == v * qp,
            v + 1 <= q,
    ;
    assert(x / q <= qp - 1) by (nonlinear_arith)
        requires
            x == q * (x / q) + x % q,
            0 <= x % q,
            x <= q * qp - qp,
            q <= qp,
            q > 0,
    ;
    if x / q == qp - 1 {
        assert(x % q == 0) by (nonlinear_arith)
            requires
                x == q * (x / q) + x % q,
                x / q == qp - 1,
                x <= q * qp - qp,
                q <= qp,
                0 <= x % q,
        ;
    }
}

/// The masked share one party contributes, for one value: the value scaled
/// from q to q' and the q'-random added, and its error share, reduced modulo
/// Δ' and masked with the Δ'-random.
pub open spec fn masked_value(v: nat, q: nat, qp: nat, r_qp: nat) -> nat {
    (round_div(v * qp, q) + r_qp) % qp
}

/// The error share of one value, see `masked_value`.
pub open spec fn masked_error(v: nat, q: nat, qp: nat, dp: nat, r_dp: nat) -> nat {
    (round_div(v * qp, q) % dp + r_dp) % dp
}

/// Whether the fast `u128` path applies.
pub open spec fn fast_path_applies(
    fast_q: Option<u128>,
    fast_qp: Option<u128>,
    fast_dp: Option<u128>,
) -> bool {
    fast_q is Some && fast_qp is Some && fast_dp is Some
}

/// How many whole pairs four slices have in common.
pub open spec fn common_pairs4(a: nat, b: nat, c: nat, d: nat) -> nat {
    common_pairs(2 * common_pairs3(a, b, c), d)
}

/// Value `c` of a share after the multi-limb fallback of
/// `scale_and_mask_share`: switched from `q` to `q'` where its error share and
/// Δ'-random stand beside it (`scaled`), then masked with the q'-random where
/// one stands beside it (`masked`).
pub open spec fn fallback_value(v: nat, scaled: bool, masked: bool, q: nat, qp: nat, r_qp: nat) -> nat {
    let s = if scaled {
        round_div(v * qp, q)
    } else {
        v
    };
    if masked {
        (s + r_qp) % qp
    } else {
        s
    }
}

/// Two sequences that agree from limb `from * len` on have the same chunks
/// from `from` on.
pub(crate) proof fn lemma_chunk_past(s: Seq<u64>, t: Seq<u64>, len: nat, from: nat, d: int)
    requires
        s.len() == t.len(),
        len > 0,
        from <= d,
        d < s.len() / len,
        forall|k: int| from * len <= k < s.len() ==> s[k] == t[k],
    ensures
        chunk_at(s, len, d) == chunk_at(t, len, d),
{
    lemma_chunk_count(s.len(), len, d);
    lemma_chunk_bounds(len, d, s.len());
    lemma_mul_inequality(from as int, d, len as int);
    assert(chunk(s, len, d) =~= chunk(t, len, d));
}

/// The `u128` path of `scale_and_mask_share`, over the pairs all four slices
/// hold; everything past them is left as it was.
fn scale_and_mask_pairs(
    value: &mut [u64],
    e: &mut [u64],
    r_dp: &[u64],
    r_qp: &[u64],
    q: u128,
    qp: u128,
    dp: u128,
)
    requires
        q > 0,
        qp > 0,
        dp > 0,
        forall|i: int|
            0 <= i < common_pairs4(
                old(value).len() as nat,
                old(e).len() as nat,
                r_dp.len() as nat,
                r_qp.len() as nat,
            ) ==> pair_at(old(value)@, i) < q,
    ensures
        final(value).len() == old(value).len(),
        final(e).len() == old(e).len(),
        forall|i: int|
            0 <= i < common_pairs4(
                old(value).len() as nat,
                old(e).len() as nat,
                r_dp.len() as nat,
                r_qp.len() as nat,
            ) ==> #[trigger] pair_at(final(value)@, i) == masked_value(
                pair_at(old(value)@, i),
                q as nat,
                qp as nat,
                pair_at(r_qp@, i),
            ),
        forall|i: int|
            0 <= i < common_pairs4(
                old(value).len() as nat,
                old(e).len() as nat,
                r_dp.len() as nat,
                r_qp.len() as nat,
            ) ==> #[trigger] pair_at(final(e)@, i) == masked_error(
                pair_at(old(value)@, i),
                q as nat,
                qp as nat,
                dp as nat,
                pair_at(r_dp@, i),
            ),
        forall|k: int|
            2 * common_pairs4(
                old(value).len() as nat,
                old(e).len() as nat,
                r_dp.len() as nat,
                r_qp.len() as nat,
            ) <= k < old(value).len() ==> final(value)@[k] == old(value)@[k],
        forall|k: int|
            2 * common_pairs4(
                old(value).len() as nat,
                old(e).len() as nat,
                r_dp.len() as nat,
                r_qp.len() as nat,
            ) <= k < old(e).len() ==> final(e)@[k] == old(e)@[k],
{
    let ghost v0 = value@;
    let ghost e0 = e@;
    let c1 = if value.len() / 2 <= e.len() / 2 {
        value.len() / 2
    } else {
        e.len() / 2
    };
    let c2 = if c1 <= r_dp.len() / 2 {
        c1
    } else {
        r_dp.len() / 2
    };
    let count = if c2 <= r_qp.len() / 2 {
        c2
    } else {
        r_qp.len() / 2
    };
    proof {
        assert((2 * c1) / 2 == c1);
        assert((2 * c2) / 2 == c2);
    }
    let mut i: usize = 0;
    while i < count
        invariant
            count == common_pairs4(
                v0.len() as nat,
                e0.len() as nat,
                r_dp.len() as nat,
                r_qp.len() as nat,
            ),
            count <= v0.len() / 2,
            count <= e0.len() / 2,
            count <= r_dp.len() / 2,
            count <= r_qp.len() / 2,
            value.len() == v0.len(),
            e.len() == e0.len(),
            q > 0,
            qp > 0,
            dp > 0,
            i <= count,
            forall|j: int| 0 <= j < count ==> pair_at(v0, j) < q,
            forall|j: int|
                0 <= j < i ==> #[trigger] pair_at(value@, j) == masked_value(
                    pair_at(v0, j),
                    q as nat,
                    qp as nat,
                    pair_at(r_qp@, j),
                ),
            forall|j: int|
                0 <= j < i ==> #[trigger] pair_at(e@, j) == masked_error(
                    pair_at(v0, j),
                    q as nat,
                    qp as nat,
                    dp as nat,
                    pair_at(r_dp@, j),
                ),
            forall|k: int| 2 * i <= k < v0.len() ==> value@[k] == v0[k],
            forall|k: int| 2 * i <= k < e0.len() ==> e@[k] == e0[k],
        decreases count - i,
    {
        let ghost vb = value@;
        let ghost eb = e@;
        let mut v_arr = load_pair(value, i);
        let mut e_arr = load_pair(e, i);
        let rd = load_pair(r_dp, i);
        let rq = load_pair(r_qp, i);
        proof {
            assert(pair_at(vb, i as int) == pair_at(v0, i as int));
        }
        scale_round_and_mod(&mut v_arr, &mut e_arr, q, qp, dp);
        add_mod_u128(&mut e_arr, &rd, dp);
        add_mod_u128(&mut v_arr, &rq, qp);
        store_pair(value, i, v_arr);
        store_pair(e, i, e_arr);
        proof {
            assert forall|j: int| 0 <= j < i + 1 implies #[trigger] pair_at(value@, j)
                == masked_value(pair_at(v0, j), q as nat, qp as nat, pair_at(r_qp@, j)) by {
                if j < i {
                    assert(value@[2 * j] == vb[2 * j]);
                    assert(value@[2 * j + 1] == vb[2 * j + 1]);
                    assert(pair_at(value@, j) == pair_at(vb, j));
                }
            }
            assert forall|j: int| 0 <= j < i + 1 implies #[trigger] pair_at(e@, j)
                == masked_error(pair_at(v0, j), q as nat, qp as nat, dp as nat, pair_at(r_dp@, j))
                by {
                if j < i {
                    assert(e@[2 * j] == eb[2 * j]);
                    assert(e@[2 * j + 1] == eb[2 * j + 1]);
                    assert(pair_at(e@, j) == pair_at(eb, j));
                }
            }
        }
        i = i + 1;
    }
}

/// Phase one of the multi-limb fallback of `scale_and_mask_share`: each
/// value that has its error share and Δ'-random beside it is switched from
/// `q` to `q'` with rounding and its masked error share written; everything
/// past those values is left as it was.
fn scale_values_biguint(
    value: &mut [u64],
    e: &mut [u64],
    r_dp: &[u64],
    len: usize,
    q_big: &[u64],
    q_prime_big: &[u64],
    delta_prime_big: &[u64],
    delta_prime: &[u64],
    q_prime: &[u64],
)
    requires
        len > 0,
        delta_prime.len() <= len,
        q_prime.len() == len,
        value_of(q_big) > 0,
        value_of(q_big) <= value_of(q_prime_big),
        value_of(q_prime_big) == value_of(q_prime),
        value_of(delta_prime_big) == value_of(delta_prime),
        value_of(delta_prime) > 0,
        forall|c: int|
            0 <= c < common_chunks3(
                old(value).len() as nat,
                old(e).len() as nat,
                r_dp.len() as nat,
                len as nat,
            ) ==> #[trigger] chunk_at(old(value)@, len as nat, c) < value_of(q_big),
        forall|c: int|
            0 <= c < common_chunks3(
                old(value).len() as nat,
                old(e).len() as nat,
                r_dp.len() as nat,
                len as nat,
            ) ==> #[trigger] chunk_at(r_dp@, len as nat, c) < value_of(delta_prime),
    ensures
        final(value).len() == old(value).len(),
        final(e).len() == old(e).len(),
        forall|c: int|
            0 <= c < common_chunks3(
                old(value).len() as nat,
                old(e).len() as nat,
                r_dp.len() as nat,
                len as nat,
            ) ==> #[trigger] chunk_at(final(value)@, len as nat, c) == round_div(
                chunk_at(old(value)@, len as nat, c) * value_of(q_prime),
                value_of(q_big),
            ) && chunk_at(final(value)@, len as nat, c) < value_of(q_prime),
        forall|c: int|
            0 <= c < common_chunks3(
                old(value).len() as nat,
                old(e).len() as nat,
                r_dp.len() as nat,
                len as nat,
            ) ==> #[trigger] chunk_at(final(e)@, len as nat, c) == masked_error(
                chunk_at(old(value)@, len as nat, c),
                value_of(q_big),
                value_of(q_prime),
                value_of(delta_prime),
                chunk_at(r_dp@, len as nat, c),
            ),
        forall|k: int|
            common_chunks3(
                old(value).len() as nat,
                old(e).len() as nat,
                r_dp.len() as nat,
                len as nat,
            ) * len <= k < old(value).len() ==> final(value)@[k] == old(value)@[k],
        forall|k: int|
            common_chunks3(
                old(value).len() as nat,
                old(e).len() as nat,
                r_dp.len() as nat,
                len as nat,
            ) * len <= k < old(e).len() ==> final(e)@[k] == old(e)@[k],
{
    let ghost ln: nat = len as nat;
    let ghost v0 = value@;
    let ghost e0 = e@;
    let c1 = if value.len() / len <= e.len() / len {
        value.len() / len
    } else {
        e.len() / len
    };
    let count = if c1 <= r_dp.len() / len {
        c1
    } else {
        r_dp.len() / len
    };
    let mut c: usize = 0;
    while c < count
        invariant
            ln == len,
            len > 0,
            count == common_chunks3(v0.len() as nat, e0.len() as nat, r_dp.len() as nat, ln),
            count <= v0.len() / ln,
            count <= e0.len() / ln,
            count <= r_dp.len() as nat / ln,
            value.len() == v0.len(),
            e.len() == e0.len(),
            delta_prime.len() <= len,
            q_prime.len() == len,
            value_of(q_big) > 0,
            value_of(q_big) <= value_of(q_prime_big),
            value_of(q_prime_big) == value_of(q_prime),
            value_of(delta_prime_big) == value_of(delta_prime),
            value_of(delta_prime) > 0,
            c <= count,
            forall|d: int| 0 <= d < count ==> #[trigger] chunk_at(v0, ln, d) < value_of(q_big),
            forall|d: int|
                0 <= d < count ==> #[trigger] chunk_at(r_dp@, ln, d) < value_of(delta_prime),
            forall|d: int|
                0 <= d < c ==> #[trigger] chunk_at(value@, ln, d) == round_div(
                    chunk_at(v0, ln, d) * value_of(q_prime),
                    value_of(q_big),
                ) && chunk_at(value@, ln, d) < value_of(q_prime),
            forall|d: int|
                0 <= d < c ==> #[trigger] chunk_at(e@, ln, d) == masked_error(
                    chunk_at(v0, ln, d),
                    value_of(q_big),
                    value_of(q_prime),
                    value_of(delta_prime),
                    chunk_at(r_dp@, ln, d),
                ),
            forall|k: int| c * ln <= k < v0.len() ==> value@[k] == v0[k],
            forall|k: int| c * ln <= k < e0.len() ==> e@[k] == e0[k],
        decreases count - c,
    {
        let ghost vb = value@;
        let ghost eb = e@;
        proof {
            lemma_chunk_count(v0.len(), ln, c as int);
            lemma_chunk_count(e0.len(), ln, c as int);
            lemma_chunk_count(r_dp.len() as nat, ln, c as int);
            lemma_chunk_bounds(ln, c as int, v0.len());
            lemma_chunk_bounds(ln, c as int, e0.len());
            lemma_chunk_bounds(ln, c as int, r_dp.len() as nat);
            lemma_mul_is_distributive_add_other_way(ln as int, c as int, 1);
            assert(chunk(vb, ln, c as int) =~= chunk(v0, ln, c as int));
        }
        let mut v = read_chunk(value, c * len, len);
        let mut ec = read_chunk(e, c * len, len);
        let r = read_chunk(r_dp, c * len, len);
        let ghost x: nat = limbs_value(v@);
        proof {
            assert(v@ =~= chunk(vb, ln, c as int));
            assert(r@ =~= chunk(r_dp@, ln, c as int));
            assert(x == chunk_at(v0, ln, c as int));
            assert(chunk_at(r_dp@, ln, c as int) < value_of(delta_prime));
            assert(limbs_value(r@) < value_of(delta_prime));
        }
        scale_round_mod_biguint(
            v.as_mut_slice(),
            ec.as_mut_slice(),
            r.as_slice(),
            q_big,
            q_prime_big,
            delta_prime_big,
            delta_prime,
            len,
        );
        proof {
            lemma_round_below(x, value_of(q_big), value_of(q_prime));
            lemma_limbs_bound(q_prime@);
            lemma_small_mod(round_div(x * value_of(q_prime), value_of(q_big)), pow64(ln));
        }
        write_chunk(value, c * len, v.as_slice());
        write_chunk(e, c * len, ec.as_slice());
        proof {
            assert(chunk(value@, ln, c as int) =~= v@);
            assert(chunk(e@, ln, c as int) =~= ec@);
            assert(same_outside(value@, vb, ln, c as int));
            assert(same_outside(e@, eb, ln, c as int));
            assert forall|d: int| 0 <= d < c + 1 implies #[trigger] chunk_at(value@, ln, d)
                == round_div(chunk_at(v0, ln, d) * value_of(q_prime), value_of(q_big))
                && chunk_at(value@, ln, d) < value_of(q_prime) by {
                if d < c {
                    lemma_chunk_count(v0.len(), ln, d);
                    lemma_chunk_frame(value@, vb, ln, c as int, d);
                }
            }
            assert forall|d: int| 0 <= d < c + 1 implies #[trigger] chunk_at(e@, ln, d)
                == masked_error(
                chunk_at(v0, ln, d),
                value_of(q_big),
                value_of(q_prime),
                value_of(delta_prime),
                chunk_at(r_dp@, ln, d),
            ) by {
                if d < c {
                    lemma_chunk_count(e0.len(), ln, d);
                    lemma_chunk_frame(e@, eb, ln, c as int, d);
                }
            }
        }
        c = c + 1;
    }
}

/// One party's share after phase decryption: every decrypted value (of `q`) is
/// switched to the modulus `q'` with rounding, its error share modulo `Δ'` is
/// extracted, and both are masked with the party's pre-shared randoms.
///
/// The `u128` path (two limbs per value) is taken when `fast_q`, `fast_qp` and
/// `fast_dp` are all known, over the values all four slices hold. Otherwise
/// every value has `big_uint_value_len` limbs and the multi-limb fallback
/// runs in two phases: the values that have an error share and a Δ'-random
/// beside them are switched and their error shares written, then the values
/// that have a q'-random beside them are masked with it. Limbs past the values
/// a phase covers are left as they were.
pub fn scale_and_mask_share(
    big_uint_dec_share: &mut [u64],
    e_share: &mut [u64],
    r_mod_delta_prime_share: &[u64],
    r_mod_q_prime_share: &[u64],
    big_uint_value_len: usize,
    fast_q: Option<u128>,
    fast_qp: Option<u128>,
    fast_dp: Option<u128>,
    q_big: &[u64],
    q_prime_big: &[u64],
    delta_prime_big: &[u64],
    delta_prime: &[u64],
    q_prime: &[u64],
)
    requires
        fast_path_applies(fast_q, fast_qp, fast_dp) ==> {
            &&& fast_q->0 > 0
            &&& fast_qp->0 > 0
            &&& fast_dp->0 > 0
            &&& forall|i: int|
                0 <= i < common_pairs4(
                    old(big_uint_dec_share).len() as nat,
                    old(e_share).len() as nat,
                    r_mod_delta_prime_share.len() as nat,
                    r_mod_q_prime_share.len() as nat,
                ) ==> pair_at(old(big_uint_dec_share)@, i) < fast_q->0
        },
        !fast_path_applies(fast_q, fast_qp, fast_dp) ==> {
            let len = big_uint_value_len as nat;
            let scaled = common_chunks3(
                old(big_uint_dec_share).len() as nat,
                old(e_share).len() as nat,
                r_mod_delta_prime_share.len() as nat,
                len,
            );
            let masked = common_chunks(
                old(big_uint_dec_share).len() as nat,
                r_mod_q_prime_share.len() as nat,
                len,
            );
            &&& len > 0
            &&& delta_prime.len() <= len
            &&& q_prime.len() == len
            &&& value_of(q_big) > 0
            &&& value_of(q_big) <= value_of(q_prime_big)
            &&& value_of(q_prime_big) == value_of(q_prime)
            &&& value_of(delta_prime_big) == value_of(delta_prime)
            &&& value_of(delta_prime) > 0
            &&& forall|c: int|
                0 <= c < scaled ==> chunk_at(old(big_uint_dec_share)@, len, c) < value_of(q_big)
            &&& forall|c: int|
                0 <= c < scaled ==> chunk_at(r_mod_delta_prime_share@, len, c) < value_of(
                    delta_prime,
                )
            &&& forall|c: int|
                scaled <= c < masked ==> chunk_at(old(big_uint_dec_share)@, len, c) < value_of(
                    q_prime,
                )
            &&& forall|c: int|
                0 <= c < masked ==> chunk_at(r_mod_q_prime_share@, len, c) < value_of(q_prime)
        },
    ensures
        final(big_uint_dec_share).len() == old(big_uint_dec_share).len(),
        final(e_share).len() == old(e_share).len(),
        fast_path_applies(fast_q, fast_qp, fast_dp) ==> {
            let count = common_pairs4(
                old(big_uint_dec_share).len() as nat,
                old(e_share).len() as nat,
                r_mod_delta_prime_share.len() as nat,
                r_mod_q_prime_share.len() as nat,
            );
            &&& forall|i: int|
                0 <= i < count ==> #[trigger] pair_at(final(big_uint_dec_share)@, i)
                    == masked_value(
                    pair_at(old(big_uint_dec_share)@, i),
                    fast_q->0 as nat,
                    fast_qp->0 as nat,
                    pair_at(r_mod_q_prime_share@, i),
                )
            &&& forall|i: int|
                0 <= i < count ==> #[trigger] pair_at(final(e_share)@, i) == masked_error(
                    pair_at(old(big_uint_dec_share)@, i),
                    fast_q->0 as nat,
                    fast_qp->0 as nat,
                    fast_dp->0 as nat,
                    pair_at(r_mod_delta_prime_share@, i),
                )
            &&& forall|k: int|
                2 * count <= k < old(big_uint_dec_share).len() ==> final(big_uint_dec_share)@[k]
                    == old(big_uint_dec_share)@[k]
            &&& forall|k: int|
                2 * count <= k < old(e_share).len() ==> final(e_share)@[k] == old(e_share)@[k]
        },
        !fast_path_applies(fast_q, fast_qp, fast_dp) ==> {
            let len = big_uint_value_len as nat;
            let scaled = common_chunks3(
                old(big_uint_dec_share).len() as nat,
                old(e_share).len() as nat,
                r_mod_delta_prime_share.len() as nat,
                len,
            );
            let masked = common_chunks(
                old(big_uint_dec_share).len() as nat,
                r_mod_q_prime_share.len() as nat,
                len,
            );
            &&& forall|c: int|
                0 <= c < old(big_uint_dec_share).len() as nat / len ==> #[trigger] chunk_at(
                    final(big_uint_dec_share)@,
                    len,
                    c,
                ) == fallback_value(
                    chunk_at(old(big_uint_dec_share)@, len, c),
                    c < scaled,
                    c < masked,
                    value_of(q_big),
                    value_of(q_prime),
                    chunk_at(r_mod_q_prime_share@, len, c),
                )
            &&& forall|k: int|
                (old(big_uint_dec_share).len() as nat / len) * len <= k < old(
                    big_uint_dec_share,
                ).len() ==> final(big_uint_dec_share)@[k] == old(big_uint_dec_share)@[k]
            &&& forall|c: int|
                0 <= c < scaled ==> #[trigger] chunk_at(final(e_share)@, len, c) == masked_error(
                    chunk_at(old(big_uint_dec_share)@, len, c),
                    value_of(q_big),
                    value_of(q_prime),
                    value_of(delta_prime),
                    chunk_at(r_mod_delta_prime_share@, len, c),
                )
            &&& forall|k: int|
                scaled * len <= k < old(e_share).len() ==> final(e_share)@[k] == old(e_share)@[k]
        },
{
    if let (Some(q128), Some(qp128), Some(dp128)) = (fast_q, fast_qp, fast_dp) {
        scale_and_mask_pairs(
            big_uint_dec_share,
            e_share,
            r_mod_delta_prime_share,
            r_mod_q_prime_share,
            q128,
            qp128,
            dp128,
        );
    } else {
        let len = big_uint_value_len;
        let ghost ln: nat = len as nat;
        let ghost v0 = big_uint_dec_share@;
        let ghost scaled: nat = common_chunks3(
            v0.len() as nat,
            e_share.len() as nat,
            r_mod_delta_prime_share.len() as nat,
            ln,
        );
        let ghost masked: nat = common_chunks(
            v0.len() as nat,
            r_mod_q_prime_share.len() as nat,
            ln,
        );
        scale_values_biguint(
            big_uint_dec_share,
            e_share,
            r_mod_delta_prime_share,
            len,
            q_big,
            q_prime_big,
            delta_prime_big,
            delta_prime,
            q_prime,
        );
        let ghost v1 = big_uint_dec_share@;
        proof {
            assert forall|c: int| 0 <= c < masked implies chunk_at(v1, ln, c) < value_of(
                q_prime,
            ) by {
                if c >= scaled {
                    lemma_chunk_past(v1, v0, ln, scaled, c);
                } else {
                    assert(chunk_at(v1, ln, c) == round_div(
                        chunk_at(v0, ln, c) * value_of(q_prime),
                        value_of(q_big),
                    ) && chunk_at(v1, ln, c) < value_of(q_prime));
                }
            }
        }
        add_random_biguint(big_uint_dec_share, r_mod_q_prime_share, q_prime, len);
        proof {
            let v2 = big_uint_dec_share@;
            assert forall|c: int| 0 <= c < v0.len() as nat / ln implies #[trigger] chunk_at(
                v2,
                ln,
                c,
            ) == fallback_value(
                chunk_at(v0, ln, c),
                c < scaled,
                c < masked,
                value_of(q_big),
                value_of(q_prime),
                chunk_at(r_mod_q_prime_share@, ln, c),
            ) by {
                if c < scaled {
                    assert(chunk_at(v1, ln, c) == round_div(
                        chunk_at(v0, ln, c) * value_of(q_prime),
                        value_of(q_big),
                    ) && chunk_at(v1, ln, c) < value_of(q_prime));
                } else {
                    lemma_chunk_past(v1, v0, ln, scaled, c);
                }
                if c >= masked {
                    lemma_chunk_past(v2, v1, ln, masked, c);
                }
            }
            let whole: nat = v0.len() as nat / ln;
            lemma_mul_inequality(scaled as int, whole as int, ln as int);
            lemma_mul_inequality(masked as int, whole as int, ln as int);
        }
    }
}

/// Coefficient `j` of `(p - p · X^g) · w` in `Z_q[X] / (X^n + 1)`, `q` the
/// commit modulus.
pub open spec fn div_v_coeff(p: Seq<u32>, g: nat, w: nat, j: int, q: nat) -> int {
    (((p[j] - monomial_mul_coeff(p, g, j, q)) % (q as int)) * w) % (q as int)
}

/// Copies `src` into `dst`.
fn copy_u32(dst: &mut [u32], src: &[u32])
    requires
        old(dst).len() == src.len(),
    ensures
        final(dst)@ == src@,
{
    let n = src.len();
    let mut i: usize = 0;
    while i < n
        invariant
            n == src.len(),
            dst.len() == n,
            i <= n,
            forall|j: int| 0 <= j < i ==> dst@[j] == src@[j],
        decreases n - i,
    {
        dst[i] = src[i];
        i = i + 1;
    }
    assert(dst@ =~= src@);
}

/// `poly ← (poly - poly · X^party_count) · inv_two` modulo `q`, the commit
/// modulus that `inv_two_factor` was made for, in `Z_q[X] / (X^n + 1)`: the
/// factor `u^{-1} = 2^{-1} (1 - X^G)` that folds the ring by the number of
/// parties. `scratch` ends holding `poly · X^party_count`.
pub fn div_v_inplace(
    poly: &mut [u32],
    scratch: &mut [u32],
    party_count: usize,
    inv_two_factor: ShoupFactor,
)
    requires
        old(poly).len() > 0,
        2 * old(poly).len() <= usize::MAX,
        old(scratch).len() == old(poly).len(),
        inv_two_factor.wf(),
    ensures
        final(poly).len() == old(poly).len(),
        final(scratch).len() == old(poly).len(),
        forall|j: int|
            0 <= j < old(poly).len() ==> final(scratch)@[j] == monomial_mul_coeff(
                old(poly)@,
                party_count as nat,
                j,
                inv_two_factor.spec_modulus(),
            ),
        forall|j: int|
            0 <= j < old(poly).len() ==> final(poly)@[j] == div_v_coeff(
                old(poly)@,
                party_count as nat,
                inv_two_factor.spec_value(),
                j,
                inv_two_factor.spec_modulus(),
            ),
{
    let ghost p0 = poly@;
    let q = inv_two_factor.modulus();
    copy_u32(scratch, poly);
    mul_monomial_assign(scratch, party_count, q);
    sub_element_wise_assign(poly, scratch, q);
    mul_factor_assign(poly, inv_two_factor);
}

/// Whether chunk `i` (of `len` coefficients) of the A part, or of the B part
/// (which starts at `ring`), holds a non-zero coefficient.
pub open spec fn chunk_pair_nonzero(fc: Seq<u32>, ring: nat, len: nat, i: int) -> bool {
    exists|j: int| 0 <= j < len && #[trigger] coeff_pair_nonzero(fc, ring, len, i, j)
}

/// Whether coefficient `j` of chunk `i` is non-zero in the A part or the B part.
pub open spec fn coeff_pair_nonzero(fc: Seq<u32>, ring: nat, len: nat, i: int, j: int) -> bool {
    fc[i * len + j] != 0 || fc[ring + i * len + j] != 0
}

/// The number of chunk pairs of `len` coefficients the folded commit holds.
pub open spec fn decode_chunk_count(fc_len: nat, ring: nat, len: nat) -> nat {
    let b_len = (fc_len - ring) as nat;
    if ring / len <= b_len / len {
        ring / len
    } else {
        b_len / len
    }
}

/// The first chunk pair at or after `from` that holds a non-zero coefficient,
/// or `count` when there is none.
pub open spec fn next_nonzero(fc: Seq<u32>, ring: nat, len: nat, from: int, count: int) -> int
    decreases count - from,
{
    if from >= count {
        count
    } else if chunk_pair_nonzero(fc, ring, len, from) {
        from
    } else {
        next_nonzero(fc, ring, len, from + 1, count)
    }
}

proof fn lemma_next_nonzero(fc: Seq<u32>, ring: nat, len: nat, from: int, count: int)
    requires
        0 <= from <= count,
    ensures
        from <= next_nonzero(fc, ring, len, from, count) <= count,
        next_nonzero(fc, ring, len, from, count) < count ==> chunk_pair_nonzero(
            fc,
            ring,
            len,
            next_nonzero(fc, ring, len, from, count),
        ),
        forall|i: int|
            from <= i < next_nonzero(fc, ring, len, from, count) ==> !chunk_pair_nonzero(
                fc,
                ring,
                len,
                i,
            ),
    decreases count - from,
{
    if from < count && !chunk_pair_nonzero(fc, ring, len, from) {
        lemma_next_nonzero(fc, ring, len, from + 1, count);
    }
}

/// Coefficient `j` of the decoded part starting at `out` of the two non-zero
/// chunk pairs `f < s`: their difference when they are neighbours, else their
/// sum, modulo the commit modulus.
pub open spec fn combined_coeff(
    fc: Seq<u32>,
    f_start: int,
    s_start: int,
    adjacent: bool,
    j: int,
    q: nat,
) -> int {
    if adjacent {
        (fc[f_start + j] - fc[s_start + j]) % (q as int)
    } else {
        (fc[f_start + j] + fc[s_start + j]) % (q as int)
    }
}

/// `dst[start + j] ← dst[start + j] ± src[j] (mod q)` for every `j`, `q` the
/// commit modulus; nothing else of `dst` changes.
fn combine_into(dst: &mut [u32], start: usize, src: &[u32], subtract: bool, q: u32)
    requires
        q > 0,
        start + src.len() <= old(dst).len(),
    ensures
        final(dst).len() == old(dst).len(),
        forall|j: int|
            0 <= j < src.len() ==> final(dst)@[start + j] == (if subtract {
                (old(dst)@[start + j] - src@[j]) % (q as int)
            } else {
                (old(dst)@[start + j] + src@[j]) % (q as int)
            }),
        forall|k: int|
            0 <= k < old(dst).len() && !(start <= k < start + src.len()) ==> final(dst)@[k] == old(dst)@[k],
{
    let n = src.len();
    let ghost d0 = dst@;
    let qq: u64 = q as u64;
    let mut j: usize = 0;
    while j < n
        invariant
            n == src.len(),
            start + n <= dst.len(),
            dst.len() == d0.len(),
            qq == q,
            q > 0,
            j <= n,
            forall|t: int|
                0 <= t < j ==> dst@[start + t] == (if subtract {
                    (d0[start + t] - src@[t]) % (q as int)
                } else {
                    (d0[start + t] + src@[t]) % (q as int)
                }),
            forall|k: int| 0 <= k < dst.len() && !(start <= k < start + j) ==> dst@[k] == d0[k],
        decreases n - j,
    {
        let x = dst[start + j] as u64 % qq;
        let y = src[j] as u64 % qq;
        let v = if subtract {
            proof {
                lemma_sub_mod_noop(dst[start + j] as int, src[j as int] as int, q as int);
                lemma_mod_add_multiples_vanish(x - y, q as int);
            }
            (x + qq - y) % qq
        } else {
            proof {
                lemma_add_mod_noop(dst[start + j] as int, src[j as int] as int, q as int);
            }
            (x + y) % qq
        };
        dst[start + j] = v as u32;
        j = j + 1;
    }
}

/// `dst[start + j] ← src[j]` for every `j`; nothing else of `dst` changes.
fn copy_into(dst: &mut [u32], start: usize, src: &[u32])
    requires
        start + src.len() <= old(dst).len(),
    ensures
        final(dst).len() == old(dst).len(),
        forall|j: int| 0 <= j < src.len() ==> final(dst)@[start + j] == src@[j],
        forall|k: int|
            0 <= k < old(dst).len() && !(start <= k < start + src.len()) ==> final(dst)@[k] == old(dst)@[k],
{
    let n = src.len();
    let ghost d0 = dst@;
    let mut j: usize = 0;
    while j < n
        invariant
            n == src.len(),
            start + n <= dst.len(),
            dst.len() == d0.len(),
            j <= n,
            forall|t: int| 0 <= t < j ==> dst@[start + t] == src@[t],
            forall|k: int| 0 <= k < dst.len() && !(start <= k < start + j) ==> dst@[k] == d0[k],
        decreases n - j,
    {
        dst[start + j] = src[j];
        j = j + 1;
    }
}

/// The first chunk pair of the folded commit holding a non-zero coefficient,
/// or the number of chunk pairs when there is none.
pub open spec fn first_nonzero_chunk(fc: Seq<u32>, ring: nat, len: nat) -> int {
    next_nonzero(fc, ring, len, 0, decode_chunk_count(fc.len(), ring, len) as int)
}

/// The next chunk pair after the first that holds a non-zero coefficient, or
/// the number of chunk pairs when there is none.
pub open spec fn second_nonzero_chunk(fc: Seq<u32>, ring: nat, len: nat) -> int {
    next_nonzero(
        fc,
        ring,
        len,
        first_nonzero_chunk(fc, ring, len) + 1,
        decode_chunk_count(fc.len(), ring, len) as int,
    )
}

/// When exactly one chunk pair is non-zero, the decoded commit is that pair.
pub open spec fn decoded_from_one(fc: Seq<u32>, ring: nat, len: nat, d: Seq<u32>) -> bool {
    let count = decode_chunk_count(fc.len(), ring, len) as int;
    let f = first_nonzero_chunk(fc, ring, len);
    let s = second_nonzero_chunk(fc, ring, len);
    f < count && s == count ==> forall|j: int|
        0 <= j < len ==> #[trigger] d[j] == fc[f * len + j] && d[len + j] == fc[ring + f * len + j]
}

/// When two chunk pairs are non-zero, the decoded commit combines the first
/// two: their difference when neighbours, else their sum.
pub open spec fn decoded_from_two(fc: Seq<u32>, ring: nat, len: nat, d: Seq<u32>, q: nat) -> bool {
    let count = decode_chunk_count(fc.len(), ring, len) as int;
    let f = first_nonzero_chunk(fc, ring, len);
    let s = second_nonzero_chunk(fc, ring, len);
    f < count && s < count ==> forall|j: int|
        0 <= j < len ==> #[trigger] d[j] == combined_coeff(fc, f * len, s * len, s == f + 1, j, q)
            && d[len + j] == combined_coeff(fc, ring + f * len, ring + s * len, s == f + 1, j, q)
}

/// The value `combine_into` leaves at a position: `x ± y (mod q)`.
pub open spec fn combined(x: int, y: int, subtract: bool, q: nat) -> int {
    if subtract {
        (x - y) % (q as int)
    } else {
        (x + y) % (q as int)
    }
}

/// After chunk pair `f` was copied into `before` and chunk pair `i`, the next
/// non-zero one, was combined into its A half (`mid`) and then its B half
/// (`after`), `after` is the decoded commit of two non-zero chunk pairs.
proof fn lemma_decoded_from_two(
    fc: Seq<u32>,
    rn: nat,
    ln: nat,
    before: Seq<u32>,
    mid: Seq<u32>,
    after: Seq<u32>,
    f: int,
    i: int,
    adjacent: bool,
    q: nat,
)
    requires
        f == first_nonzero_chunk(fc, rn, ln),
        i == second_nonzero_chunk(fc, rn, ln),
        i < decode_chunk_count(fc.len(), rn, ln),
        adjacent == (i == f + 1),
        forall|j: int|
            0 <= j < ln ==> #[trigger] before[j] == fc[f * ln + j] && before[ln + j] == fc[rn + f * ln
                + j],
        forall|j: int|
            0 <= j < ln ==> #[trigger] mid[j] == combined(before[j] as int, fc[i * ln + j] as int, adjacent, q),
        forall|j: int| 0 <= j < ln ==> #[trigger] mid[ln + j] == before[ln + j],
        forall|j: int|
            0 <= j < ln ==> #[trigger] after[ln + j] == combined(
                mid[ln + j] as int,
                fc[rn + i * ln + j] as int,
                adjacent,
                q,
            ),
        forall|j: int| 0 <= j < ln ==> #[trigger] after[j] == mid[j],
    ensures
        decoded_from_two(fc, rn, ln, after, q),
        decoded_from_one(fc, rn, ln, after),
{
    assert forall|j: int| 0 <= j < ln implies #[trigger] after[j] == combined_coeff(
        fc,
        f * ln,
        i * ln,
        adjacent,
        j,
        q,
    ) && after[ln + j] == combined_coeff(fc, rn + f * ln, rn + i * ln, adjacent, j, q) by {
        assert(after[j] == mid[j]);
        assert(mid[ln + j] == before[ln + j]);
        assert(before[j] == fc[f * ln + j]);
    }
}

/// Whether chunk pair `i` of the folded commit holds a non-zero coefficient.
fn chunk_pair_is_nonzero(final_commit: &[u32], ring: usize, len: usize, i: usize) -> (r: bool)
    requires
        len > 0,
        ring <= final_commit.len(),
        i < decode_chunk_count(final_commit.len() as nat, ring as nat, len as nat),
    ensures
        r == chunk_pair_nonzero(final_commit@, ring as nat, len as nat, i as int),
{
    let ghost fc = final_commit@;
    let ghost ln = len as nat;
    let ghost rn = ring as nat;
    let b_len = final_commit.len() - ring;
    proof {
        lemma_chunk_count(rn, ln, i as int);
        lemma_chunk_count(b_len as nat, ln, i as int);
        lemma_chunk_bounds(ln, i as int, rn);
        lemma_chunk_bounds(ln, i as int, b_len as nat);
    }
    let start = i * len;
    let a_chunk = &final_commit[start..start + len];
    let b_chunk = &final_commit[ring + start..ring + start + len];
    let nonzero = !is_zero(a_chunk) || !is_zero(b_chunk);
    proof {
        if nonzero {
            let j = choose|j: int| 0 <= j < len && (a_chunk@[j] != 0 || b_chunk@[j] != 0);
            assert(a_chunk@[j] == fc[i * len + j]);
            assert(b_chunk@[j] == fc[ring + i * len + j]);
            assert(coeff_pair_nonzero(fc, rn, ln, i as int, j));
        } else {
            assert forall|j: int| 0 <= j < len implies !coeff_pair_nonzero(
                fc,
                rn,
                ln,
                i as int,
                j,
            ) by {
                assert(a_chunk@[j] == 0);
                assert(b_chunk@[j] == 0);
            }
        }
    }
    nonzero
}

/// The first chunk pair at or after `from` holding a non-zero coefficient, or
/// `count` when there is none.
fn next_nonzero_chunk(final_commit: &[u32], ring: usize, len: usize, from: usize, count: usize) -> (r:
    usize)
    requires
        len > 0,
        ring <= final_commit.len(),
        count == decode_chunk_count(final_commit.len() as nat, ring as nat, len as nat),
        from <= count,
    ensures
        r == next_nonzero(final_commit@, ring as nat, len as nat, from as int, count as int),
{
    let ghost fc = final_commit@;
    let mut i = from;
    while i < count
        invariant
            fc == final_commit@,
            len > 0,
            ring <= final_commit.len(),
            count == decode_chunk_count(final_commit.len() as nat, ring as nat, len as nat),
            from <= i <= count,
            next_nonzero(fc, ring as nat, len as nat, from as int, count as int) == next_nonzero(
                fc,
                ring as nat,
                len as nat,
                i as int,
                count as int,
            ),
        decreases count - i,
    {
        if chunk_pair_is_nonzero(final_commit, ring, len, i) {
            return i;
        }
        i = i + 1;
    }
    i
}

/// Recovers the leader's small ciphertext from the folded final commit, for
/// a commit modulus `q`.
///
/// The A part is `final_commit[..ring_poly_length]`, the B part the rest; both
/// are read in chunks of `commit_poly_length`. With `f` the first chunk pair
/// holding a non-zero coefficient and `s` the next one: the decoded A and B
/// halves are chunk `f` minus chunk `s` when `s == f + 1`, chunk `f` plus
/// chunk `s` otherwise; chunk `f` alone when there is no `s`; untouched when
/// there is no `f`.
#[verifier::spinoff_prover]
pub fn decode_commit_modulo(
    final_commit: &[u32],
    decoded_commit: &mut [u32],
    commit_poly_length: usize,
    ring_poly_length: usize,
    q: u32,
)
    requires
        q > 0,
        commit_poly_length > 0,
        ring_poly_length <= final_commit.len(),
        commit_poly_length <= old(decoded_commit).len(),
        next_nonzero(
            final_commit@,
            ring_poly_length as nat,
            commit_poly_length as nat,
            0,
            decode_chunk_count(
                final_commit.len() as nat,
                ring_poly_length as nat,
                commit_poly_length as nat,
            ) as int,
        ) < decode_chunk_count(
            final_commit.len() as nat,
            ring_poly_length as nat,
            commit_poly_length as nat,
        ) ==> old(decoded_commit).len() == 2 * commit_poly_length,
    ensures
        final(decoded_commit).len() == old(decoded_commit).len(),
        first_nonzero_chunk(final_commit@, ring_poly_length as nat, commit_poly_length as nat)
            == decode_chunk_count(
            final_commit.len() as nat,
            ring_poly_length as nat,
            commit_poly_length as nat,
        ) ==> final(decoded_commit)@ == old(decoded_commit)@,
        decoded_from_one(
            final_commit@,
            ring_poly_length as nat,
            commit_poly_length as nat,
            final(decoded_commit)@,
        ),
        decoded_from_two(
            final_commit@,
            ring_poly_length as nat,
            commit_poly_length as nat,
            final(decoded_commit)@,
            q as nat,
        ),
{
    let len = commit_poly_length;
    let ring = ring_poly_length;
    let b_len = final_commit.len() - ring;
    let count = if ring / len <= b_len / len {
        ring / len
    } else {
        b_len / len
    };
    let ghost fc = final_commit@;
    let ghost ln = len as nat;
    let ghost rn = ring as nat;
    let f = next_nonzero_chunk(final_commit, ring, len, 0, count);
    proof {
        lemma_next_nonzero(fc, rn, ln, 0, count as int);
    }
    if f == count {
        return;
    }
    let s = next_nonzero_chunk(final_commit, ring, len, f + 1, count);
    proof {
        lemma_next_nonzero(fc, rn, ln, f + 1, count as int);
        lemma_chunk_count(rn, ln, f as int);
        lemma_chunk_count(b_len as nat, ln, f as int);
        lemma_chunk_bounds(ln, f as int, rn);
        lemma_chunk_bounds(ln, f as int, b_len as nat);
    }
    let fs = f * len;
    let a_f = &final_commit[fs..fs + len];
    let b_f = &final_commit[ring + fs..ring + fs + len];
    copy_into(decoded_commit, 0, a_f);
    let ghost first = decoded_commit@;
    copy_into(decoded_commit, len, b_f);
    let ghost before = decoded_commit@;
    proof {
        assert forall|j: int| 0 <= j < ln implies #[trigger] before[j] == fc[f * ln + j]
            && before[ln + j] == fc[rn + f * ln + j] by {
            assert(before[j] == first[j]);
            assert(first[j] == a_f@[j]);
            assert(before[ln + j] == b_f@[j]);
        }
    }
    if s == count {
        return;
    }
    proof {
        lemma_chunk_count(rn, ln, s as int);
        lemma_chunk_count(b_len as nat, ln, s as int);
        lemma_chunk_bounds(ln, s as int, rn);
        lemma_chunk_bounds(ln, s as int, b_len as nat);
    }
    let ss = s * len;
    let a_s = &final_commit[ss..ss + len];
    let b_s = &final_commit[ring + ss..ring + ss + len];
    let adjacent = f + 1 == s;
    combine_into(decoded_commit, 0, a_s, adjacent, q);
    let ghost mid = decoded_commit@;
    combine_into(decoded_commit, len, b_s, adjacent, q);
    proof {
        assert forall|j: int| 0 <= j < ln implies #[trigger] mid[j] == combined(
            before[j] as int,
            fc[s * ln + j] as int,
            adjacent,
            q as nat,
        ) by {
            assert(a_s@[j] == fc[ss + j]);
        }
        assert forall|j: int| 0 <= j < ln implies #[trigger] decoded_commit@[ln + j] == combined(
            mid[ln + j] as int,
            fc[rn + s * ln + j] as int,
            adjacent,
            q as nat,
        ) by {
            assert(b_s@[j] == fc[ring + ss + j]);
        }
        assert forall|j: int| 0 <= j < ln implies #[trigger] mid[ln + j] == before[ln + j] by {}
        assert forall|j: int| 0 <= j < ln implies #[trigger] decoded_commit@[j] == mid[j] by {}
        lemma_decoded_from_two(
            fc,
            rn,
            ln,
            before,
            mid,
            decoded_commit@,
            f as int,
            s as int,
            adjacent,
            q as nat,
        );
    }
}

/// Recovers the leader's small ciphertext from the folded final commit.
///
/// The A part is `final_commit[..ring_poly_length]`, the B part the rest; both
/// are read in chunks of `commit_poly_length`. With `f` the first chunk pair
/// holding a non-zero coefficient and `s` the next one: the decoded A and B
/// halves are chunk `f` minus chunk `s` when `s == f + 1`, chunk `f` plus
/// chunk `s` otherwise; chunk `f` alone when there is no `s`; untouched when
/// there is no `f`.
pub fn decode_commit(
    final_commit: &[u32],
    decoded_commit: &mut [u32],
    commit_poly_length: usize,
    ring_poly_length: usize,
)
    requires
        commit_poly_length > 0,
        ring_poly_length <= final_commit.len(),
        commit_poly_length <= old(decoded_commit).len(),
        next_nonzero(
            final_commit@,
            ring_poly_length as nat,
            commit_poly_length as nat,
            0,
            decode_chunk_count(
                final_commit.len() as nat,
                ring_poly_length as nat,
                commit_poly_length as nat,
            ) as int,
        ) < decode_chunk_count(
            final_commit.len() as nat,
            ring_poly_length as nat,
            commit_poly_length as nat,
        ) ==> old(decoded_commit).len() == 2 * commit_poly_length,
    ensures
        final(decoded_commit).len() == old(decoded_commit).len(),
        first_nonzero_chunk(final_commit@, ring_poly_length as nat, commit_poly_length as nat)
            == decode_chunk_count(
            final_commit.len() as nat,
            ring_poly_length as nat,
            commit_poly_length as nat,
        ) ==> final(decoded_commit)@ == old(decoded_commit)@,
        decoded_from_one(
            final_commit@,
            ring_poly_length as nat,
            commit_poly_length as nat,
            final(decoded_commit)@,
        ),
        decoded_from_two(
            final_commit@,
            ring_poly_length as nat,
            commit_poly_length as nat,
            final(decoded_commit)@,
            commit_q(),
        ),
{
    decode_commit_modulo(
        final_commit,
        decoded_commit,
        commit_poly_length,
        ring_poly_length,
        COMMIT_MODULUS,
    );
}

/// The modulus of position `k` of an RNS polynomial sequence: every RNS
/// polynomial is `rns_poly_len` residues, one block of `ring_poly_length` per
/// cipher modulus.
pub open spec fn rns_modulus_at(
    cipher_moduli: Seq<u64>,
    ring_poly_length: nat,
    rns_poly_len: nat,
    k: int,
) -> nat {
    cipher_moduli[(k % (rns_poly_len as int)) / (ring_poly_length as int)] as nat
}

/// The sum of position `x` over the first `n` parties' encoded commits, each
/// `2 · glwe_len` residues long.
pub open spec fn encoded_sum(all: Seq<u64>, glwe_len: nat, x: int, n: nat) -> nat
    decreases n,
{
    if n == 0 {
        0
    } else {
        encoded_sum(all, glwe_len, x, (n - 1) as nat) + all[(n - 1) * (2 * glwe_len) + x] as nat
    }
}

/// A residue after `parties` parties' values, summing to `sum`, were added to
/// `start` modulo `m`: unchanged when there are none.
pub open spec fn aggregated(start: u64, sum: nat, parties: nat, m: nat) -> int {
    if parties == 0 {
        start as int
    } else {
        (start + sum) % (m as int)
    }
}

/// How many of the `final` residues receive the parties' sums: the two GLWE
/// ciphertexts of `rns_glwe_len` residues, as far as `final` holds them.
pub open spec fn encoded_len(final_len: nat, glwe_len: nat) -> nat {
    if final_len / glwe_len <= 2 {
        (final_len / glwe_len) * glwe_len
    } else {
        2 * glwe_len
    }
}

proof fn lemma_rns_index(k: int, rns_poly_len: int, n: int, moduli_len: int)
    requires
        k >= 0,
        n > 0,
        rns_poly_len == moduli_len * n,
        moduli_len > 0,
    ensures
        0 <= (k % rns_poly_len) / n < moduli_len,
{
    vstd::arithmetic::mul::lemma_mul_strictly_positive(moduli_len, n);
    lemma_mod_bound(k, rns_poly_len);
    lemma_div_pos_is_pos(k % rns_poly_len, n);
    vstd::arithmetic::mul::lemma_mul_is_commutative(moduli_len, n);
    lemma_div_strictly_bounded(k % rns_poly_len, n, moduli_len);
}

proof fn lemma_div_strictly_bounded(x: int, a: int, b: int)
    requires
        a > 0,
        0 <= x < b * a,
    ensures
        x / a < b,
{
    lemma_fundamental_div_mod(x, a);
    lemma_mod_bound(x, a);
    assert(x / a < b) by (nonlinear_arith)
        requires
            x == a * (x / a) + x % a,
            0 <= x % a,
            x < b * a,
            a > 0,
    ;
}

/// Sums all parties' encoded commits into `final_encode_commits`, residue by
/// residue modulo each residue's cipher modulus.
///
/// `all_encode_commits` holds, per party, two GLWE ciphertexts of
/// `rns_glwe_len` residues; they are added into the two ciphertexts of
/// `final_encode_commits` (as far as it holds them).
pub fn aggregate_encode_commits(
    all_encode_commits: &[u64],
    final_encode_commits: &mut [u64],
    rns_glwe_len: usize,
    ring_poly_length: usize,
    rns_poly_len: usize,
    cipher_moduli: &[u64],
)
    requires
        rns_glwe_len > 0,
        2 * rns_glwe_len <= usize::MAX,
        ring_poly_length > 0,
        cipher_moduli.len() > 0,
        rns_poly_len == cipher_moduli.len() * ring_poly_length,
        forall|i: int| 0 <= i < cipher_moduli.len() ==> cipher_moduli@[i] > 0,
    ensures
        final(final_encode_commits).len() == old(final_encode_commits).len(),
        forall|x: int|
            0 <= x < encoded_len(old(final_encode_commits).len() as nat, rns_glwe_len as nat)
                ==> final(final_encode_commits)@[x] == aggregated(
                old(final_encode_commits)@[x],
                encoded_sum(
                    all_encode_commits@,
                    rns_glwe_len as nat,
                    x,
                    all_encode_commits.len() as nat / (2 * rns_glwe_len as nat),
                ),
                all_encode_commits.len() as nat / (2 * rns_glwe_len as nat),
                rns_modulus_at(
                    cipher_moduli@,
                    ring_poly_length as nat,
                    rns_poly_len as nat,
                    x % (rns_glwe_len as int),
                ),
            ),
        forall|x: int|
            encoded_len(old(final_encode_commits).len() as nat, rns_glwe_len as nat) <= x < old(
                final_encode_commits,
            ).len() ==> final(final_encode_commits)@[x] == old(final_encode_commits)@[x],
{
    let g = rns_glwe_len;
    let two_g = 2 * g;
    let parties = all_encode_commits.len() / two_g;
    let chunks = final_encode_commits.len() / g;
    proof {
        if chunks <= 2 {
            vstd::arithmetic::mul::lemma_mul_inequality(chunks as int, 2, g as int);
        }
        vstd::arithmetic::mul::lemma_mul_strictly_positive(
            cipher_moduli.len() as int,
            ring_poly_length as int,
        );
    }
    let width = if chunks <= 2 {
        chunks * g
    } else {
        two_g
    };
    let ghost f0 = final_encode_commits@;
    let ghost moduli = cipher_moduli@;
    proof {
        lemma_fundamental_div_mod(final_encode_commits.len() as int, g as int);
        if chunks <= 2 {
            vstd::arithmetic::mul::lemma_mul_inequality(chunks as int, 2, g as int);
        }
        lemma_fundamental_div_mod(all_encode_commits.len() as int, two_g as int);
        lemma_mod_bound(all_encode_commits.len() as int, two_g as int);
        vstd::arithmetic::mul::lemma_mul_is_commutative(parties as int, two_g as int);
        assert(parties * two_g <= all_encode_commits.len());
        assert(width == encoded_len(f0.len(), g as nat));
        assert(width <= f0.len()) by (nonlinear_arith)
            requires
                f0.len() == g * chunks + f0.len() % (g as nat),
                0 <= f0.len() % (g as nat),
                width == (if chunks <= 2 {
                    chunks * g
                } else {
                    2 * g
                }),
                g > 0,
        ;
    }
    let mut p: usize = 0;
    while p < parties
        invariant
            g == rns_glwe_len,
            two_g == 2 * g,
            g > 0,
            parties == all_encode_commits.len() as nat / (2 * rns_glwe_len as nat),
            parties * two_g <= all_encode_commits.len(),
            width <= two_g,
            width <= f0.len(),
            width == encoded_len(f0.len(), g as nat),
            final_encode_commits.len() == f0.len(),
            f0 == old(final_encode_commits)@,
            moduli == cipher_moduli@,
            ring_poly_length > 0,
            cipher_moduli.len() > 0,
            rns_poly_len == cipher_moduli.len() * ring_poly_length,
            forall|i: int| 0 <= i < cipher_moduli.len() ==> cipher_moduli@[i] > 0,
            p <= parties,
            rns_poly_len > 0,
            forall|x: int|
                0 <= x < width ==> final_encode_commits@[x] == aggregated(
                    f0[x],
                    encoded_sum(all_encode_commits@, g as nat, x, p as nat),
                    p as nat,
                    rns_modulus_at(moduli, ring_poly_length as nat, rns_poly_len as nat, x % (g as int)),
                ),
            forall|x: int| width <= x < f0.len() ==> final_encode_commits@[x] == f0[x],
        decreases parties - p,
    {
        proof {
            vstd::arithmetic::mul::lemma_mul_inequality(p as int + 1, parties as int, two_g as int);
            vstd::arithmetic::mul::lemma_mul_is_distributive_add_other_way(two_g as int, p as int, 1);
        }
        let base = p * two_g;
        let ghost fp = final_encode_commits@;
        let mut x: usize = 0;
        while x < width
            invariant
                g == rns_glwe_len,
                g > 0,
                width <= two_g,
                width <= f0.len(),
                base + two_g <= all_encode_commits.len(),
                base == p * two_g,
                final_encode_commits.len() == f0.len(),
                moduli == cipher_moduli@,
                ring_poly_length > 0,
                cipher_moduli.len() > 0,
                rns_poly_len == cipher_moduli.len() * ring_poly_length,
                rns_poly_len > 0,
                forall|i: int| 0 <= i < cipher_moduli.len() ==> cipher_moduli@[i] > 0,
                x <= width,
                forall|y: int|
                    0 <= y < x ==> final_encode_commits@[y] == (fp[y] + all_encode_commits@[base
                        + y]) % (rns_modulus_at(
                        moduli,
                        ring_poly_length as nat,
                        rns_poly_len as nat,
                        y % (g as int),
                    ) as int),
                forall|y: int| x <= y < f0.len() ==> final_encode_commits@[y] == fp[y],
            decreases width - x,
        {
            let k = x % g;
            let mi = k % rns_poly_len;
            proof {
                lemma_rns_index(k as int, rns_poly_len as int, ring_poly_length as int, cipher_moduli.len() as int);
            }
            let m = cipher_moduli[mi / ring_poly_length];
            let v = ((final_encode_commits[x] as u128 + all_encode_commits[base + x] as u128)
                % m as u128) as u64;
            final_encode_commits[x] = v;
            x = x + 1;
        }
        proof {
            assert forall|y: int| 0 <= y < width implies final_encode_commits@[y] == aggregated(
                f0[y],
                encoded_sum(all_encode_commits@, g as nat, y, (p + 1) as nat),
                (p + 1) as nat,
                rns_modulus_at(moduli, ring_poly_length as nat, rns_poly_len as nat, y % (g as int)),
            ) by {
                let m = rns_modulus_at(moduli, ring_poly_length as nat, rns_poly_len as nat, y % (g as int));
                lemma_rns_index(y % (g as int), rns_poly_len as int, ring_poly_length as int, cipher_moduli.len() as int);
                lemma_mod_bound(y, g as int);
                if p > 0 {
                    lemma_add_mod(
                        (f0[y] + encoded_sum(all_encode_commits@, g as nat, y, p as nat)) as int,
                        all_encode_commits@[base + y] as int,
                        m as int,
                    );
                }
                assert(encoded_sum(all_encode_commits@, g as nat, y, (p + 1) as nat) == encoded_sum(
                    all_encode_commits@,
                    g as nat,
                    y,
                    p as nat,
                ) + all_encode_commits@[base + y]);
            }
        }
        p = p + 1;
    }
}

/// Timing measurements for each protocol phase.
#[derive(Clone, Copy)]
pub struct PhaseTimings {
    pub rlwe_mul_rgsw: std::time::Duration,
    pub expand_coefficients: std::time::Duration,
    pub compute_local_encode_commit: std::time::Duration,
    pub compute_final_encode_commit: std::time::Duration,
    pub distributed_decrypt: std::time::Duration,
    pub decrypt_commit: std::time::Duration,
    pub all_compute: std::time::Duration,
}


/// The two-limb fast path and the multi-limb fallback read the same number
/// from a two-limb value, so `final_value_to_commit_u128` and
/// `final_value_to_commit_biguint` give the same commit coefficient for it.
pub proof fn law_fast_path_agrees(slot: Seq<u64>, dp: nat)
    requires
        slot.len() == 2,
        dp > 0,
    ensures
        pair_at(slot, 0) == limbs_value(slot),
        round_div(pair_at(slot, 0), dp) % u32_modulus() == round_div(limbs_value(slot), dp)
            % u32_modulus(),
{
    crate::limbs::lemma_pow64_small();
    reveal_with_fuel(limbs_value, 3);
    assert(slot.drop_last().drop_last().len() == 0);
    assert(slot.drop_last().last() == slot[0]);
}


/// The value of the `c`-th chunk of two limbs is the `c`-th pair.
pub(crate) proof fn lemma_chunk_two_is_pair(s: Seq<u64>, c: int)
    requires
        0 <= c,
        2 * c + 2 <= s.len(),
    ensures
        chunk_at(s, 2, c) == pair_at(s, c),
{
    let t = chunk(s, 2, c);
    assert(c * 2 == 2 * c);
    assert(t.len() == 2);
    assert(t[0] == s[2 * c] && t[1] == s[2 * c + 1]);
    law_fast_path_agrees(t, 1);
}

/// Two pairs of limbs with one value hold the same limbs.
proof fn lemma_pair_limbs(s: Seq<u64>, t: Seq<u64>, c: int)
    requires
        0 <= c,
        2 * c + 2 <= s.len(),
        2 * c + 2 <= t.len(),
        pair_at(s, c) == pair_at(t, c),
    ensures
        s[2 * c] == t[2 * c],
        s[2 * c + 1] == t[2 * c + 1],
{
    let b = base() as int;
    assert(b == 0x1_0000_0000_0000_0000);
    lemma_fundamental_div_mod_converse(pair_at(s, c) as int, b, s[2 * c + 1] as int, s[2 * c] as int);
    lemma_fundamental_div_mod_converse(pair_at(t, c) as int, b, t[2 * c + 1] as int, t[2 * c] as int);
}

/// Two sequences of pairs that agree pair by pair are equal.
pub(crate) proof fn lemma_pairs_equal(s: Seq<u64>, t: Seq<u64>)
    requires
        s.len() == t.len(),
        s.len() % 2 == 0,
        forall|i: int| 0 <= i < s.len() / 2 ==> #[trigger] pair_at(s, i) == pair_at(t, i),
    ensures
        s == t,
{
    assert forall|k: int| 0 <= k < s.len() implies s[k] == t[k] by {
        let i = k / 2;
        assert(pair_at(s, i) == pair_at(t, i));
        lemma_pair_limbs(s, t, i);
    }
    assert(s =~= t);
}

/// The two paths of `scale_and_mask_share` agree on values of two limbs: the
/// `u128` path leaves the same value and error shares as the multi-limb
/// fallback run with `big_uint_value_len == 2`, for the same moduli, whenever
/// the values that have a q'-random beside them are the values that have an
/// error share and a Δ'-random beside them (as with slices of one length).
pub proof fn law_share_paths_agree(
    old_v: Seq<u64>,
    old_e: Seq<u64>,
    r_dp: Seq<u64>,
    r_qp: Seq<u64>,
    fast_v: Seq<u64>,
    fast_e: Seq<u64>,
    slow_v: Seq<u64>,
    slow_e: Seq<u64>,
    q: nat,
    qp: nat,
    dp: nat,
)
    requires
        common_chunks3(old_v.len(), old_e.len(), r_dp.len(), 2) == common_chunks(
            old_v.len(),
            r_qp.len(),
            2,
        ),
        fast_v.len() == old_v.len(),
        slow_v.len() == old_v.len(),
        fast_e.len() == old_e.len(),
        slow_e.len() == old_e.len(),
        forall|i: int|
            0 <= i < common_pairs4(old_v.len(), old_e.len(), r_dp.len(), r_qp.len())
                ==> #[trigger] pair_at(fast_v, i) == masked_value(
                pair_at(old_v, i),
                q,
                qp,
                pair_at(r_qp, i),
            ),
        forall|i: int|
            0 <= i < common_pairs4(old_v.len(), old_e.len(), r_dp.len(), r_qp.len())
                ==> #[trigger] pair_at(fast_e, i) == masked_error(
                pair_at(old_v, i),
                q,
                qp,
                dp,
                pair_at(r_dp, i),
            ),
        forall|k: int|
            2 * common_pairs4(old_v.len(), old_e.len(), r_dp.len(), r_qp.len()) <= k
                < old_v.len() ==> fast_v[k] == old_v[k],
        forall|k: int|
            2 * common_pairs4(old_v.len(), old_e.len(), r_dp.len(), r_qp.len()) <= k
                < old_e.len() ==> fast_e[k] == old_e[k],
        forall|c: int|
            0 <= c < old_v.len() / 2 ==> #[trigger] chunk_at(slow_v, 2, c) == fallback_value(
                chunk_at(old_v, 2, c),
                c < common_chunks3(old_v.len(), old_e.len(), r_dp.len(), 2),
                c < common_chunks(old_v.len(), r_qp.len(), 2),
                q,
                qp,
                chunk_at(r_qp, 2, c),
            ),
        forall|k: int| (old_v.len() / 2) * 2 <= k < old_v.len() ==> slow_v[k] == old_v[k],
        forall|c: int|
            0 <= c < common_chunks3(old_v.len(), old_e.len(), r_dp.len(), 2) ==> #[trigger] chunk_at(
                slow_e,
                2,
                c,
            ) == masked_error(chunk_at(old_v, 2, c), q, qp, dp, chunk_at(r_dp, 2, c)),
        forall|k: int|
            common_chunks3(old_v.len(), old_e.len(), r_dp.len(), 2) * 2 <= k < old_e.len()
                ==> slow_e[k] == old_e[k],
    ensures
        fast_v == slow_v,
        fast_e == slow_e,
{
    let count = common_pairs4(old_v.len(), old_e.len(), r_dp.len(), r_qp.len());
    let scaled = common_chunks3(old_v.len(), old_e.len(), r_dp.len(), 2);
    let c2 = common_pairs(old_v.len(), old_e.len());
    let c3 = common_pairs3(old_v.len(), old_e.len(), r_dp.len());
    assert((2 * c2) / 2 == c2);
    assert((2 * c3) / 2 == c3);
    assert(count == scaled);
    assert forall|k: int| 0 <= k < old_v.len() implies fast_v[k] == slow_v[k] by {
        let i = k / 2;
        if k < 2 * count {
            lemma_chunk_two_is_pair(old_v, i);
            lemma_chunk_two_is_pair(r_qp, i);
            lemma_chunk_two_is_pair(slow_v, i);
            assert(chunk_at(slow_v, 2, i) == fallback_value(
                chunk_at(old_v, 2, i),
                i < scaled,
                i < common_chunks(old_v.len(), r_qp.len(), 2),
                q,
                qp,
                chunk_at(r_qp, 2, i),
            ));
            assert(pair_at(fast_v, i) == masked_value(pair_at(old_v, i), q, qp, pair_at(r_qp, i)));
            lemma_pair_limbs(fast_v, slow_v, i);
        } else if k < (old_v.len() / 2) * 2 {
            lemma_chunk_two_is_pair(old_v, i);
            lemma_chunk_two_is_pair(slow_v, i);
            assert(chunk_at(slow_v, 2, i) == fallback_value(
                chunk_at(old_v, 2, i),
                i < scaled,
                i < common_chunks(old_v.len(), r_qp.len(), 2),
                q,
                qp,
                chunk_at(r_qp, 2, i),
            ));
            lemma_pair_limbs(slow_v, old_v, i);
        }
    }
    assert forall|k: int| 0 <= k < old_e.len() implies fast_e[k] == slow_e[k] by {
        let i = k / 2;
        if k < 2 * count {
            lemma_chunk_two_is_pair(old_v, i);
            lemma_chunk_two_is_pair(r_dp, i);
            lemma_chunk_two_is_pair(slow_e, i);
            assert(chunk_at(slow_e, 2, i) == masked_error(
                chunk_at(old_v, 2, i),
                q,
                qp,
                dp,
                chunk_at(r_dp, 2, i),
            ));
            assert(pair_at(fast_e, i) == masked_error(pair_at(old_v, i), q, qp, dp, pair_at(r_dp, i)));
            lemma_pair_limbs(fast_e, slow_e, i);
        }
    }
    assert(fast_v =~= slow_v);
    assert(fast_e =~= slow_e);
}

/// The multi-limb scaling of a two-limb value agrees with the `u128` one:
/// `scale_round_mod_biguint` with two-limb `value` and `e` leaves the limbs
/// that `scale_round_and_mod` followed by `add_mod_u128` of the mask leaves.
pub proof fn law_scaling_paths_agree(
    rounded: nat,
    mask: nat,
    dp: nat,
    fast_v: [u64; 2],
    fast_e: [u64; 2],
    slow_v: Seq<u64>,
    slow_e: Seq<u64>,
)
    requires
        dp > 0,
        pair_value(fast_v) == rounded,
        pair_value(fast_e) == (rounded % dp + mask) % dp,
        slow_v.len() == 2,
        slow_e.len() == 2,
        limbs_value(slow_v) == rounded % pow64(2),
        limbs_value(slow_e) == (rounded % dp + mask) % dp,
    ensures
        slow_v == fast_v@,
        slow_e == fast_e@,
{
    crate::limbs::lemma_pow64_small();
    assert(pair_value(fast_v) < pow64(2)) by (nonlinear_arith)
        requires
            pair_value(fast_v) == fast_v[0] + fast_v[1] * base(),
            pow64(2) == base() * base(),
            base() == 0x1_0000_0000_0000_0000,
            fast_v[0] < base(),
            fast_v[1] < base(),
    ;
    lemma_small_mod(rounded, pow64(2));
    law_fast_path_agrees(slow_v, 1);
    law_fast_path_agrees(slow_e, 1);
    assert(pair_at(fast_v@, 0) == pair_value(fast_v));
    assert(pair_at(fast_e@, 0) == pair_value(fast_e));
    lemma_pair_limbs(slow_v, fast_v@, 0);
    lemma_pair_limbs(slow_e, fast_e@, 0);
    assert(slow_v =~= fast_v@);
    assert(slow_e =~= fast_e@);
}

} // verus!
