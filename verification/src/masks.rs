//! The pre-shared random masks of distributed decryption: each party holds, for
//! every value, one share modulo `Δ'` and one share modulo `q'`; summed over
//! all parties, both open to the same small signed random.
use crate::bignum::{
    limbs_pad, num_div_rem, num_next_multiple_of, sub_value, value_of,
};
use crate::limbs::{lemma_add_mod, lemma_limbs_bound, lemma_limbs_short, limbs_value, pow64};
use crate::protocol::{
    chunk, chunk_at, lemma_chunk_bounds, lemma_chunk_count, lemma_update_chunk, same_outside,
    sub_chunk_mod, write_chunk,
};
use rand::distr::Distribution;
use rand::RngExt;
use vstd::arithmetic::div_mod::*;
use vstd::arithmetic::mul::*;
use vstd::prelude::*;

verus! {

/// The thread-local random generator of `rand`.
#[verifier::external_type_specification]
#[verifier::external_body]
pub struct ExThreadRng(rand::rngs::ThreadRng);

/// One draw of `rand::distr::Uniform::new(0, bound)` through
/// `Distribution::sample` (`Uniform::new` fails only for an empty range,
/// which the `requires` excludes). Claimed: only that the draw lies in
/// `[0, bound)`; which value comes is chance.
#[verifier::external_body]
fn sample_below(rng: &mut rand::rngs::ThreadRng, bound: u64) -> (r: u64)
    requires
        bound > 0,
    ensures
        r < bound,
{
    rand::distr::Uniform::new(0, bound).unwrap().sample(rng)
}

/// One fair coin from `RngExt::random::<bool>`. Nothing is claimed of the
/// outcome.
#[verifier::external_body]
fn sample_bool(rng: &mut rand::rngs::ThreadRng) -> bool {
    rng.random::<bool>()
}

/// The bound on the magnitude of a mask, 2^30.
pub open spec fn mask_bound() -> int {
    0x4000_0000
}

/// `r` as `len` limbs.
fn limbs_of(r: u64, len: usize) -> (out: Vec<u64>)
    requires
        len > 0,
    ensures
        out.len() == len,
        limbs_value(out@) == r,
{
    let mut one: Vec<u64> = Vec::new();
    one.push(r);
    proof {
        lemma_limbs_short(one@);
    }
    limbs_pad(one.as_slice(), len)
}

/// The signed value of one draw: the magnitude with the drawn sign.
pub open spec fn signed_draw(d: (u64, bool)) -> int {
    if d.1 {
        d.0 as int
    } else {
        -(d.0 as int)
    }
}

/// One mask from one draw: the magnitude `r < 2^30` with the sign `positive`,
/// as its residue modulo `Δ'` and modulo `q'`.
pub fn mask_from_draw(r: u64, positive: bool, delta_prime: &[u64], q_prime: &[u64]) -> (m: (
    Vec<u64>,
    Vec<u64>,
))
    requires
        r < 0x4000_0000,
        delta_prime.len() > 0,
        q_prime.len() == delta_prime.len(),
        value_of(delta_prime) >= mask_bound(),
        value_of(q_prime) >= mask_bound(),
    ensures
        m.0.len() == delta_prime.len(),
        m.1.len() == delta_prime.len(),
        limbs_value(m.0@) == signed_draw((r, positive)) % (value_of(delta_prime) as int),
        limbs_value(m.1@) == signed_draw((r, positive)) % (value_of(q_prime) as int),
{
    let len = delta_prime.len();
    if positive {
        proof {
            lemma_small_mod(r as nat, value_of(delta_prime));
            lemma_small_mod(r as nat, value_of(q_prime));
        }
        (limbs_of(r, len), limbs_of(r, len))
    } else if r != 0 {
        let mut x = limbs_of(0, len);
        let mut y = limbs_of(0, len);
        sub_value(delta_prime, r, x.as_mut_slice());
        sub_value(q_prime, r, y.as_mut_slice());
        proof {
            let dp = value_of(delta_prime) as int;
            let qp = value_of(q_prime) as int;
            lemma_fundamental_div_mod_converse(0 - r, dp, -1, dp - r);
            lemma_fundamental_div_mod_converse(0 - r, qp, -1, qp - r);
        }
        (x, y)
    } else {
        proof {
            lemma_small_mod(0, value_of(delta_prime));
            lemma_small_mod(0, value_of(q_prime));
        }
        (limbs_of(0, len), limbs_of(0, len))
    }
}

/// The draws of one table of masks: for each value, the magnitude from
/// `rand::distr::Uniform::new(0, 2^30)` and then the sign from a fair coin.
fn sample_draws(rng: &mut rand::rngs::ThreadRng, count: usize) -> (d: Vec<(u64, bool)>)
    ensures
        d.len() == count,
        forall|k: int| 0 <= k < count ==> (#[trigger] d@[k]).0 < 0x4000_0000,
{
    let mut draws: Vec<(u64, bool)> = Vec::new();
    let mut k: usize = 0;
    while k < count
        invariant
            k <= count,
            draws.len() == k,
            forall|j: int| 0 <= j < k ==> (#[trigger] draws@[j]).0 < 0x4000_0000,
        decreases count - k,
    {
        let r = sample_below(rng, 0x4000_0000);
        let positive = sample_bool(rng);
        draws.push((r, positive));
        k = k + 1;
    }
    draws
}

/// The sum of chunk `c` over the first `n` parties' masks, on the `Δ'` side
/// (`delta_side`) or the `q'` side.
pub open spec fn mask_sum(
    shares: Seq<(Vec<u64>, Vec<u64>)>,
    delta_side: bool,
    len: nat,
    c: int,
    n: nat,
) -> int
    decreases n,
{
    if n == 0 {
        0
    } else {
        mask_sum(shares, delta_side, len, c, (n - 1) as nat) + chunk_at(
            if delta_side {
                shares[n - 1].0@
            } else {
                shares[n - 1].1@
            },
            len,
            c,
        )
    }
}

proof fn lemma_mask_sum_prefix(
    shares: Seq<(Vec<u64>, Vec<u64>)>,
    extra: (Vec<u64>, Vec<u64>),
    delta_side: bool,
    len: nat,
    c: int,
    n: nat,
)
    requires
        n <= shares.len(),
    ensures
        mask_sum(shares.push(extra), delta_side, len, c, n) == mask_sum(
            shares,
            delta_side,
            len,
            c,
            n,
        ),
    decreases n,
{
    if n > 0 {
        lemma_mask_sum_prefix(shares, extra, delta_side, len, c, (n - 1) as nat);
    }
}

/// Whether the masks of all parties open, chunk by chunk, to the signed values
/// `s`, both modulo `Δ'` and modulo `q'`.
pub open spec fn masks_open_to(
    shares: Seq<(Vec<u64>, Vec<u64>)>,
    len: nat,
    length: nat,
    dp: nat,
    qp: nat,
    s: Seq<int>,
) -> bool {
    &&& s.len() == length
    &&& forall|c: int|
        0 <= c < length ==> -mask_bound() < #[trigger] s[c] < mask_bound() && mask_sum(
            shares,
            true,
            len,
            c,
            shares.len(),
        ) % (dp as int) == s[c] % (dp as int) && mask_sum(shares, false, len, c, shares.len()) % (
        qp as int) == s[c] % (qp as int)
}

/// Whether value `c` of the masks `x` (modulo `Δ'`) and `y` (modulo `q'`) is
/// the small signed random `t`.
pub open spec fn small_pair(x: Seq<u64>, y: Seq<u64>, len: nat, c: int, dp: nat, qp: nat, t: int) -> bool {
    -mask_bound() < t < mask_bound() && chunk_at(x, len, c) == t % (dp as int) && chunk_at(y, len, c)
        == t % (qp as int)
}

/// Whether value `c` of a party's masks is one small signed random `t`,
/// `|t| < 2^30`, taken modulo `Δ'` on the one side and modulo `q'` on the other.
pub open spec fn small_mask(share: (Vec<u64>, Vec<u64>), len: nat, c: int, dp: nat, qp: nat) -> bool {
    exists|t: int| #[trigger] small_pair(share.0@, share.1@, len, c, dp, qp, t)
}

/// `Σ_{t < n}` of party `t`'s draw for value `c`: the draws of party `t`
/// follow the `length` draws of the opened values, `length` per party.
pub open spec fn party_draws_sum(draws: Seq<(u64, bool)>, length: nat, c: int, n: nat) -> int
    decreases n,
{
    if n == 0 {
        0
    } else {
        party_draws_sum(draws, length, c, (n - 1) as nat) + signed_draw(draws[n * length + c])
    }
}

/// The distributed-decryption masks of `party_count` parties for `length`
/// values of `delta_prime.len()` limbs each, built from the draws.
///
/// Draws `0..length` give, value by value, the signed random `s` that all
/// masks open to; draws `(t + 1)·length..(t + 2)·length` give party `t`'s
/// masks, for every party but the last; the last party's masks are `s` minus
/// the others'. Each mask is taken modulo `Δ'` and modulo `q'`.
pub fn dd_random_from_draws(
    party_count: usize,
    length: usize,
    draws: &[(u64, bool)],
    delta_prime: &[u64],
    q_prime: &[u64],
) -> (r: Vec<(Vec<u64>, Vec<u64>)>)
    requires
        party_count > 0,
        draws.len() == party_count * length,
        forall|k: int| 0 <= k < draws.len() ==> (#[trigger] draws@[k]).0 < 0x4000_0000,
        delta_prime.len() > 0,
        q_prime.len() == delta_prime.len(),
        delta_prime.len() * length <= usize::MAX,
        value_of(delta_prime) >= mask_bound(),
        value_of(q_prime) >= mask_bound(),
    ensures
        r.len() == party_count,
        forall|i: int|
            0 <= i < party_count ==> r@[i].0.len() == delta_prime.len() * length && r@[i].1.len()
                == delta_prime.len() * length,
        forall|i: int, c: int|
            0 <= i < party_count - 1 && 0 <= c < length ==> #[trigger] chunk_at(r@[i].0@,
                delta_prime.len() as nat,
                c,
            ) == signed_draw(draws@[(i + 1) * length + c]) % (value_of(delta_prime) as int)
                && chunk_at(r@[i].1@, delta_prime.len() as nat, c) == signed_draw(
                draws@[(i + 1) * length + c],
            ) % (value_of(q_prime) as int),
        forall|c: int|
            0 <= c < length ==> #[trigger] chunk_at(r@[party_count - 1].0@, delta_prime.len() as nat, c)
                == (signed_draw(draws@[c]) - party_draws_sum(
                draws@,
                length as nat,
                c,
                (party_count - 1) as nat,
            )) % (value_of(delta_prime) as int) && chunk_at(
                r@[party_count - 1].1@,
                delta_prime.len() as nat,
                c,
            ) == (signed_draw(draws@[c]) - party_draws_sum(
                draws@,
                length as nat,
                c,
                (party_count - 1) as nat,
            )) % (value_of(q_prime) as int),
        r.len() == party_count,
        forall|i: int|
            0 <= i < party_count ==> r@[i].0.len() == delta_prime.len() * length && r@[i].1.len()
                == delta_prime.len() * length,
        forall|i: int, c: int|
            0 <= i < party_count && 0 <= c < length ==> #[trigger] chunk_at(r@[i].0@,
                delta_prime.len() as nat,
                c,
            ) < value_of(delta_prime) && chunk_at(r@[i].1@, delta_prime.len() as nat, c)
                < value_of(q_prime),
        forall|i: int, c: int|
            0 <= i < party_count - 1 && 0 <= c < length ==> #[trigger] small_mask(
                r@[i],
                delta_prime.len() as nat,
                c,
                value_of(delta_prime),
                value_of(q_prime),
            ),
        exists|s: Seq<int>|
            masks_open_to(
                r@,
                delta_prime.len() as nat,
                length as nat,
                value_of(delta_prime),
                value_of(q_prime),
                s,
            ),
{
    let len = delta_prime.len();
    let total = len * length;
    let ghost ln = len as nat;
    let ghost dp = value_of(delta_prime);
    let ghost qp = value_of(q_prime);
    let mut r_dp: Vec<u64> = vec![0u64; total];
    let mut r_qp: Vec<u64> = vec![0u64; total];
    proof {
        lemma_div_multiples_vanish(length as int, len as int);
        lemma_mul_is_commutative(len as int, length as int);
        lemma_mul_inequality(1, party_count as int, length as int);
    }
    let ghost mut sigma: Seq<int> = Seq::empty();
    let mut c: usize = 0;
    while c < length
        invariant
            ln == len,
            len > 0,
            total == len * length,
            total as nat / ln == length,
            r_dp.len() == total,
            r_qp.len() == total,
            delta_prime.len() == len,
            q_prime.len() == len,
            dp == value_of(delta_prime),
            qp == value_of(q_prime),
            dp >= mask_bound(),
            qp >= mask_bound(),
            c <= length,
            length <= draws.len(),
            forall|k: int| 0 <= k < draws.len() ==> (#[trigger] draws@[k]).0 < 0x4000_0000,
            sigma.len() == c,
            forall|d: int| 0 <= d < c ==> sigma[d] == signed_draw(#[trigger] draws@[d]),
            forall|d: int| 0 <= d < c ==> -mask_bound() < #[trigger] sigma[d] < mask_bound(),
            forall|d: int| 0 <= d < c ==> #[trigger] chunk_at(r_dp@, ln, d) == sigma[d] % (dp as int),
            forall|d: int| 0 <= d < c ==> #[trigger] chunk_at(r_qp@, ln, d) == sigma[d] % (qp as int),
        decreases length - c,
    {
        let draw = draws[c];
        let (x, y) = mask_from_draw(draw.0, draw.1, delta_prime, q_prime);
        let ghost s = signed_draw(draw);
        proof {
            lemma_chunk_count(total as nat, ln, c as int);
            lemma_chunk_bounds(ln, c as int, total as nat);
        }
        let ghost before_dp = r_dp@;
        let ghost before_qp = r_qp@;
        write_chunk(r_dp.as_mut_slice(), c * len, x.as_slice());
        write_chunk(r_qp.as_mut_slice(), c * len, y.as_slice());
        proof {
            assert(chunk(r_dp@, ln, c as int) =~= x@);
            assert(chunk(r_qp@, ln, c as int) =~= y@);
            lemma_update_chunk(before_dp, r_dp@, ln, c as int, length as nat);
            lemma_update_chunk(before_qp, r_qp@, ln, c as int, length as nat);
            sigma = sigma.push(s);
            assert forall|d: int| 0 <= d < c + 1 implies chunk_at(r_dp@, ln, d) == sigma[d] % (
            dp as int) && chunk_at(r_qp@, ln, d) == sigma[d] % (qp as int) by {
                if d < c {
                    assert(chunk_at(r_dp@, ln, d) == chunk_at(before_dp, ln, d));
                    assert(chunk_at(r_qp@, ln, d) == chunk_at(before_qp, ln, d));
                }
            }
        }
        c = c + 1;
    }
    let mut results: Vec<(Vec<u64>, Vec<u64>)> = Vec::new();
    let mut t: usize = 0;
    proof {
        assert forall|d: int| 0 <= d < length implies (chunk_at(r_dp@, ln, d) + mask_sum(
            results@,
            true,
            ln,
            d,
            0,
        )) % (dp as int) == #[trigger] sigma[d] % (dp as int) && (chunk_at(r_qp@, ln, d)
            + mask_sum(results@, false, ln, d, 0)) % (qp as int) == sigma[d] % (qp as int)
            && chunk_at(r_dp@, ln, d) < dp && chunk_at(r_qp@, ln, d) < qp by {
            lemma_mod_bound(sigma[d], dp as int);
            lemma_mod_bound(sigma[d], qp as int);
            lemma_mod_twice(sigma[d], dp as int);
            lemma_mod_twice(sigma[d], qp as int);
        }
    }
    while t < party_count - 1
        invariant
            ln == len,
            len > 0,
            total == len * length,
            total as nat / ln == length,
            r_dp.len() == total,
            r_qp.len() == total,
            delta_prime.len() == len,
            q_prime.len() == len,
            dp == value_of(delta_prime),
            qp == value_of(q_prime),
            dp >= mask_bound(),
            qp >= mask_bound(),
            party_count > 0,
            t <= party_count - 1,
            results.len() == t,
            draws.len() == party_count * length,
            forall|k: int| 0 <= k < draws.len() ==> (#[trigger] draws@[k]).0 < 0x4000_0000,
            sigma.len() == length,
            forall|d: int| 0 <= d < length ==> sigma[d] == signed_draw(#[trigger] draws@[d]),
            forall|d: int| 0 <= d < length ==> -mask_bound() < #[trigger] sigma[d] < mask_bound(),
            forall|i: int, d: int|
                0 <= i < t && 0 <= d < length ==> #[trigger] chunk_at(results@[i].0@, ln, d)
                    == signed_draw(draws@[(i + 1) * length + d]) % (dp as int) && chunk_at(
                    results@[i].1@,
                    ln,
                    d,
                ) == signed_draw(draws@[(i + 1) * length + d]) % (qp as int),
            forall|d: int|
                0 <= d < length ==> #[trigger] chunk_at(r_dp@, ln, d) == (signed_draw(draws@[d])
                    - party_draws_sum(draws@, length as nat, d, t as nat)) % (dp as int)
                    && chunk_at(r_qp@, ln, d) == (signed_draw(draws@[d]) - party_draws_sum(
                    draws@,
                    length as nat,
                    d,
                    t as nat,
                )) % (qp as int),
            forall|i: int|
                0 <= i < t ==> results@[i].0.len() == total && results@[i].1.len() == total,
            forall|i: int, d: int|
                0 <= i < t && 0 <= d < length ==> #[trigger] small_mask(results@[i], ln, d, dp, qp),
            forall|i: int, d: int|
                0 <= i < t && 0 <= d < length ==> #[trigger] chunk_at(results@[i].0@, ln, d) < dp
                    && chunk_at(results@[i].1@, ln, d) < qp,
            forall|d: int|
                0 <= d < length ==> #[trigger] chunk_at(r_dp@, ln, d) < dp && chunk_at(r_qp@, ln, d)
                    < qp,
            forall|d: int|
                0 <= d < length ==> (chunk_at(r_dp@, ln, d) + mask_sum(
                    results@,
                    true,
                    ln,
                    d,
                    t as nat,
                )) % (dp as int) == #[trigger] sigma[d] % (dp as int) && (chunk_at(r_qp@, ln, d)
                    + mask_sum(results@, false, ln, d, t as nat)) % (qp as int) == sigma[d] % (
                qp as int),
        decreases party_count - 1 - t,
    {
        let mut tx: Vec<u64> = vec![0u64; total];
        let mut ty: Vec<u64> = vec![0u64; total];
        let ghost mut taus: Seq<int> = Seq::empty();
        proof {
            lemma_mul_inequality(t as int + 2, party_count as int, length as int);
            lemma_mul_is_distributive_add_other_way(length as int, t as int + 1, 1);
        }
        let base = (t + 1) * length;
        let ghost dp0 = r_dp@;
        let ghost qp0 = r_qp@;
        let mut c: usize = 0;
        while c < length
            invariant
                ln == len,
                len > 0,
                total == len * length,
                total as nat / ln == length,
                r_dp.len() == total,
                r_qp.len() == total,
                tx.len() == total,
                ty.len() == total,
                delta_prime.len() == len,
                q_prime.len() == len,
                dp == value_of(delta_prime),
                qp == value_of(q_prime),
                dp >= mask_bound(),
                qp >= mask_bound(),
                c <= length,
                forall|d: int|
                    0 <= d < length ==> #[trigger] chunk_at(dp0, ln, d) < dp && chunk_at(qp0, ln, d)
                        < qp,
                forall|d: int|
                    0 <= d < c ==> #[trigger] chunk_at(tx@, ln, d) < dp && chunk_at(ty@, ln, d) < qp,
                taus.len() == c,
                base == (t + 1) * length,
                base + length <= draws.len(),
                forall|k: int| 0 <= k < draws.len() ==> (#[trigger] draws@[k]).0 < 0x4000_0000,
                forall|d: int| 0 <= d < c ==> taus[d] == signed_draw(#[trigger] draws@[base + d]),
                forall|d: int| 0 <= d < c ==> small_pair(tx@, ty@, ln, d, dp, qp, #[trigger] taus[d]),
                forall|d: int|
                    0 <= d < c ==> #[trigger] chunk_at(r_dp@, ln, d) == (chunk_at(dp0, ln, d)
                        - chunk_at(tx@, ln, d)) % (dp as int) && chunk_at(r_qp@, ln, d) == (
                    chunk_at(qp0, ln, d) - chunk_at(ty@, ln, d)) % (qp as int),
                forall|d: int|
                    c <= d < length ==> #[trigger] chunk_at(r_dp@, ln, d) == chunk_at(dp0, ln, d)
                        && chunk_at(r_qp@, ln, d) == chunk_at(qp0, ln, d),
            decreases length - c,
        {
            let draw = draws[base + c];
            let (x, y) = mask_from_draw(draw.0, draw.1, delta_prime, q_prime);
            let ghost tau = signed_draw(draw);
            proof {
                lemma_chunk_count(total as nat, ln, c as int);
                lemma_chunk_bounds(ln, c as int, total as nat);
            }
            let ghost tx0 = tx@;
            let ghost ty0 = ty@;
            write_chunk(tx.as_mut_slice(), c * len, x.as_slice());
            write_chunk(ty.as_mut_slice(), c * len, y.as_slice());
            proof {
                assert(chunk(tx@, ln, c as int) =~= x@);
                assert(chunk(ty@, ln, c as int) =~= y@);
                lemma_update_chunk(tx0, tx@, ln, c as int, length as nat);
                lemma_update_chunk(ty0, ty@, ln, c as int, length as nat);
                lemma_limbs_bound(delta_prime@);
                lemma_limbs_bound(q_prime@);
                assert(chunk_at(r_dp@, ln, c as int) == chunk_at(dp0, ln, c as int));
                assert(chunk_at(r_qp@, ln, c as int) == chunk_at(qp0, ln, c as int));
            }
            let ghost rd0 = r_dp@;
            let ghost rq0 = r_qp@;
            sub_chunk_mod(r_dp.as_mut_slice(), c, tx.as_slice(), c, len, delta_prime);
            sub_chunk_mod(r_qp.as_mut_slice(), c, ty.as_slice(), c, len, q_prime);
            proof {
                lemma_update_chunk(rd0, r_dp@, ln, c as int, length as nat);
                lemma_update_chunk(rq0, r_qp@, ln, c as int, length as nat);
                assert forall|d: int| 0 <= d < c + 1 implies #[trigger] chunk_at(tx@, ln, d) < dp
                    && chunk_at(ty@, ln, d) < qp && chunk_at(r_dp@, ln, d) == (chunk_at(dp0, ln, d)
                    - chunk_at(tx@, ln, d)) % (dp as int) && chunk_at(r_qp@, ln, d) == (chunk_at(
                    qp0,
                    ln,
                    d,
                ) - chunk_at(ty@, ln, d)) % (qp as int) by {
                    if d < c {
                        assert(chunk_at(tx@, ln, d) == chunk_at(tx0, ln, d));
                        assert(chunk_at(ty@, ln, d) == chunk_at(ty0, ln, d));
                        assert(chunk_at(r_dp@, ln, d) == chunk_at(rd0, ln, d));
                        assert(chunk_at(r_qp@, ln, d) == chunk_at(rq0, ln, d));
                    }
                }
                assert forall|d: int| c + 1 <= d < length implies #[trigger] chunk_at(r_dp@, ln, d)
                    == chunk_at(dp0, ln, d) && chunk_at(r_qp@, ln, d) == chunk_at(qp0, ln, d) by {
                    assert(chunk_at(r_dp@, ln, d) == chunk_at(rd0, ln, d));
                    assert(chunk_at(r_qp@, ln, d) == chunk_at(rq0, ln, d));
                }
                let ghost old_taus = taus;
                taus = taus.push(tau);
                assert forall|d: int| 0 <= d < c + 1 implies taus[d] == signed_draw(
                    #[trigger] draws@[base + d],
                ) by {
                    if d < c {
                        assert(taus[d] == old_taus[d]);
                    }
                }
                assert forall|d: int| 0 <= d < c + 1 implies small_pair(
                    tx@,
                    ty@,
                    ln,
                    d,
                    dp,
                    qp,
                    #[trigger] taus[d],
                ) by {
                    if d < c {
                        assert(taus[d] == old_taus[d]);
                        assert(chunk_at(tx@, ln, d) == chunk_at(tx0, ln, d));
                        assert(chunk_at(ty@, ln, d) == chunk_at(ty0, ln, d));
                    }
                }
            }
            c = c + 1;
        }
        let ghost before = results@;
        results.push((tx, ty));
        proof {
            assert forall|i: int, d: int|
                0 <= i < t + 1 && 0 <= d < length implies #[trigger] chunk_at(results@[i].0@, ln, d)
                == signed_draw(draws@[(i + 1) * length + d]) % (dp as int) && chunk_at(
                results@[i].1@,
                ln,
                d,
            ) == signed_draw(draws@[(i + 1) * length + d]) % (qp as int) by {
                if i < t {
                    assert(results@[i] == before[i]);
                } else {
                    assert(taus[d] == signed_draw(draws@[base + d]));
                    assert(small_pair(tx@, ty@, ln, d, dp, qp, taus[d]));
                }
            }
            assert forall|d: int| 0 <= d < length implies #[trigger] chunk_at(r_dp@, ln, d) == (
            signed_draw(draws@[d]) - party_draws_sum(draws@, length as nat, d, (t + 1) as nat)) % (
            dp as int) && chunk_at(r_qp@, ln, d) == (signed_draw(draws@[d]) - party_draws_sum(
                draws@,
                length as nat,
                d,
                (t + 1) as nat,
            )) % (qp as int) by {
                let sd = signed_draw(draws@[d]);
                let pd = party_draws_sum(draws@, length as nat, d, t as nat);
                let td = signed_draw(draws@[base + d]);
                assert(party_draws_sum(draws@, length as nat, d, (t + 1) as nat) == pd + signed_draw(
                    draws@[(t + 1) * length + d],
                ));
                assert(taus[d] == td);
                assert(small_pair(tx@, ty@, ln, d, dp, qp, taus[d]));
                lemma_add_mod(sd - pd, td, dp as int);
                lemma_add_mod(sd - pd, td, qp as int);
            }
            assert forall|d: int| 0 <= d < length implies (chunk_at(r_dp@, ln, d) + mask_sum(
                results@,
                true,
                ln,
                d,
                (t + 1) as nat,
            )) % (dp as int) == #[trigger] sigma[d] % (dp as int) && (chunk_at(r_qp@, ln, d)
                + mask_sum(results@, false, ln, d, (t + 1) as nat)) % (qp as int) == sigma[d] % (
            qp as int) by {
                lemma_mask_sum_prefix(before, results@[t as int], true, ln, d, t as nat);
                lemma_mask_sum_prefix(before, results@[t as int], false, ln, d, t as nat);
                assert(results@ == before.push(results@[t as int]));
                let sd = mask_sum(before, true, ln, d, t as nat);
                let sq = mask_sum(before, false, ln, d, t as nat);
                let xd = chunk_at(results@[t as int].0@, ln, d);
                let xq = chunk_at(results@[t as int].1@, ln, d);
                lemma_add_mod(chunk_at(dp0, ln, d) - xd, sd + xd, dp as int);
                lemma_add_mod(chunk_at(qp0, ln, d) - xq, sq + xq, qp as int);
            }
            assert forall|i: int, d: int|
                0 <= i < t + 1 && 0 <= d < length implies #[trigger] chunk_at(results@[i].0@,
                ln,
                d,
            ) < dp && chunk_at(results@[i].1@, ln, d) < qp by {
                if i < t {
                    assert(results@[i] == before[i]);
                }
            }
            assert forall|i: int, d: int|
                0 <= i < t + 1 && 0 <= d < length implies #[trigger] small_mask(
                results@[i],
                ln,
                d,
                dp,
                qp,
            ) by {
                if i < t {
                    assert(results@[i] == before[i]);
                } else {
                    assert(small_pair(results@[i].0@, results@[i].1@, ln, d, dp, qp, taus[d]));
                }
            }
        }
        t = t + 1;
    }
    let ghost before = results@;
    results.push((r_dp, r_qp));
    proof {
        let n = party_count as nat;
        assert(results@ == before.push(results@[(n - 1) as int]));
        assert forall|d: int| 0 <= d < length implies -mask_bound() < #[trigger] sigma[d]
            < mask_bound() && mask_sum(results@, true, ln, d, results@.len()) % (dp as int)
            == sigma[d] % (dp as int) && mask_sum(results@, false, ln, d, results@.len()) % (
        qp as int) == sigma[d] % (qp as int) by {
            lemma_mask_sum_prefix(before, results@[(n - 1) as int], true, ln, d, (n - 1) as nat);
            lemma_mask_sum_prefix(before, results@[(n - 1) as int], false, ln, d, (n - 1) as nat);
        }
        assert(masks_open_to(results@, ln, length as nat, dp, qp, sigma));
        assert forall|i: int, c: int|
            0 <= i < party_count - 1 && 0 <= c < length implies #[trigger] chunk_at(results@[i].0@,
            ln,
            c,
        ) == signed_draw(draws@[(i + 1) * length + c]) % (dp as int) && chunk_at(
            results@[i].1@,
            ln,
            c,
        ) == signed_draw(draws@[(i + 1) * length + c]) % (qp as int) by {
            assert(results@[i] == before[i]);
        }
        assert forall|i: int, d: int|
            0 <= i < party_count && 0 <= d < length implies #[trigger] chunk_at(results@[i].0@,
            ln,
            d,
        ) < dp && chunk_at(results@[i].1@, ln, d) < qp by {
            if i < n - 1 {
                assert(results@[i] == before[i]);
            }
        }
        assert forall|i: int, d: int|
            0 <= i < party_count - 1 && 0 <= d < length implies #[trigger] small_mask(
            results@[i],
            ln,
            d,
            dp,
            qp,
        ) by {
            assert(results@[i] == before[i]);
        }
    }
    results
}

/// The moduli of the masked decryption: `q'`, the least multiple of the plain
/// modulus `p` that is at least `q`, and `Δ' = q' / p` (as `num` limbs).
pub fn dd_moduli(q: &[u64], plain_modulus: u64) -> (r: (Vec<u64>, Vec<u64>))
    requires
        plain_modulus > 0,
    ensures
        limbs_value(r.0@) % (plain_modulus as nat) == 0,
        limbs_value(r.0@) >= value_of(q),
        limbs_value(r.0@) < value_of(q) + plain_modulus,
        limbs_value(r.1@) * plain_modulus == limbs_value(r.0@),
{
    let p = limbs_of(plain_modulus, 1);
    let q_prime = num_next_multiple_of(q, p.as_slice());
    let (delta_prime, _) = num_div_rem(q_prime.as_slice(), p.as_slice());
    proof {
        let vq = value_of(q) as int;
        let pm = plain_modulus as int;
        lemma_fundamental_div_mod(vq, pm);
        lemma_mod_bound(vq, pm);
        if vq % pm != 0 {
            lemma_mul_is_distributive_add(pm, vq / pm, 1);
            assert(vq + (pm - vq % pm) == pm * (vq / pm + 1));
            lemma_mul_is_commutative(pm, vq / pm + 1);
            lemma_mod_multiples_basic(vq / pm + 1, pm);
        }
        let vqp = limbs_value(q_prime@) as int;
        lemma_fundamental_div_mod(vqp, pm);
        lemma_mul_is_commutative(pm, vqp / pm);
    }
    (q_prime, delta_prime)
}

/// Draws the distributed-decryption masks of `party_count` parties for
/// `length` values of `delta_prime.len()` limbs each.
///
/// Every party gets a pair (share modulo `Δ'`, share modulo `q'`); each share
/// is a residue. For every value, the `Δ'` shares of all parties sum to some
/// signed random `s` with `|s| < 2^30` modulo `Δ'`, and the `q'` shares sum to
/// that same `s` modulo `q'`. Every party but the last gets, for every value,
/// a small signed random of its own (`|t| < 2^30`) on both sides; the last
/// party's shares make the sums come out. The draws are taken by
/// `sample_draws` and turned into masks by `dd_random_from_draws`.
pub fn generate_dd_random(
    party_count: usize,
    length: usize,
    delta_prime: &[u64],
    q_prime: &[u64],
    rng: &mut rand::rngs::ThreadRng,
) -> (r: Vec<(Vec<u64>, Vec<u64>)>)
    requires
        party_count > 0,
        party_count * length <= usize::MAX,
        delta_prime.len() > 0,
        q_prime.len() == delta_prime.len(),
        delta_prime.len() * length <= usize::MAX,
        value_of(delta_prime) >= mask_bound(),
        value_of(q_prime) >= mask_bound(),
    ensures
        r.len() == party_count,
        forall|i: int|
            0 <= i < party_count ==> r@[i].0.len() == delta_prime.len() * length && r@[i].1.len()
                == delta_prime.len() * length,
        forall|i: int, c: int|
            0 <= i < party_count && 0 <= c < length ==> #[trigger] chunk_at(r@[i].0@,
                delta_prime.len() as nat,
                c,
            ) < value_of(delta_prime) && chunk_at(r@[i].1@, delta_prime.len() as nat, c)
                < value_of(q_prime),
        forall|i: int, c: int|
            0 <= i < party_count - 1 && 0 <= c < length ==> #[trigger] small_mask(
                r@[i],
                delta_prime.len() as nat,
                c,
                value_of(delta_prime),
                value_of(q_prime),
            ),
        exists|s: Seq<int>|
            masks_open_to(
                r@,
                delta_prime.len() as nat,
                length as nat,
                value_of(delta_prime),
                value_of(q_prime),
                s,
            ),
{
    let draws = sample_draws(rng, party_count * length);
    dd_random_from_draws(party_count, length, draws.as_slice(), delta_prime, q_prime)
}

} // verus!
