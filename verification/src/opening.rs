//! Party 0's opening of the distributed decryption in the `u128` fast path:
//! the error shares of all parties are summed and centered, the error is
//! removed from party 0's value share, all value shares are summed, and each
//! opened value is rounded to a commit coefficient.
use crate::fast_path::round_div;
use crate::limbs::lemma_add_mod;
use crate::protocol::{
    aggregate_e_shares_u128, aggregate_value_shares_u128, center_e_shares_u128, centered,
    chunk_at, common_pairs, common_pairs3, final_value_to_commit_u128, lemma_chunk_two_is_pair,
    lemma_pairs_equal, masked_error, masked_value, pair_at, share_value, share_value_sum,
    sub_e_add_random_u128, u32_modulus, whole_shares,
};
use vstd::arithmetic::div_mod::*;
use vstd::arithmetic::mul::*;
use vstd::prelude::*;

verus! {

/// The sum of pair `k` over the first `n` shares of `share_len` limbs laid out
/// one after another.
pub open spec fn shares_pair_sum(s: Seq<u64>, share_len: nat, k: int, n: nat) -> nat
    decreases n,
{
    if n == 0 {
        0
    } else {
        shares_pair_sum(s, share_len, k, (n - 1) as nat) + pair_at(
            s,
            (n - 1) * (share_len / 2) + k,
        )
    }
}

/// `start` after `n` further shares summing to `sum` were added to it modulo
/// `m`: unchanged when there are none.
pub open spec fn accumulated(start: int, sum: nat, n: nat, m: nat) -> int {
    if n == 0 {
        start
    } else {
        (start + sum) % (m as int)
    }
}

/// Party 0's error share of pair `k` after the other parties' error shares
/// were added to it, modulo `dp`.
pub open spec fn summed_error(p0_e: Seq<u64>, others: Seq<u64>, share_len: nat, k: int, dp: nat) -> int {
    accumulated(
        pair_at(p0_e, k) as int,
        shares_pair_sum(others, share_len, k, others.len() / share_len),
        others.len() / share_len,
        dp,
    )
}

/// The opened value of pair `k`: party 0's value share minus the centered
/// error plus its q'-random, then the other parties' value shares added,
/// modulo `qp`.
pub open spec fn opened_value(
    p0_e: Seq<u64>,
    other_e: Seq<u64>,
    p0_v: Seq<u64>,
    other_v: Seq<u64>,
    r0: Seq<u64>,
    share_len: nat,
    k: int,
    dp: nat,
    qp: nat,
) -> int {
    let e = centered(summed_error(p0_e, other_e, share_len, k, dp) as nat, dp);
    accumulated(
        (pair_at(p0_v, k) - e + pair_at(r0, k)) % (qp as int),
        shares_pair_sum(other_v, share_len, k, other_v.len() / share_len),
        other_v.len() / share_len,
        qp,
    )
}

/// The pair `k` of the `p`-th share of `share_len` limbs is pair
/// `p · share_len / 2 + k` of the whole sequence.
proof fn lemma_share_pair(s: Seq<u64>, share_len: nat, p: int, k: int)
    requires
        share_len % 2 == 0,
        0 <= p,
        0 <= k < share_len / 2,
        (p + 1) * share_len <= s.len(),
    ensures
        p * share_len + share_len <= s.len(),
        pair_at(s.subrange(p * share_len, p * share_len + share_len), k) == pair_at(
            s,
            p * (share_len / 2) + k,
        ),
{
    let h = share_len / 2;
    assert(share_len == 2 * h);
    assert(p * share_len == 2 * (p * h)) by (nonlinear_arith)
        requires
            share_len == 2 * h,
    ;
    lemma_mul_is_distributive_add_other_way(share_len as int, p, 1);
}

/// Adds every share of `others` (as many whole shares of `share_len` limbs as
/// it holds) into `acc`, pair by pair, modulo `m`.
fn add_all_shares(acc: &mut [u64], others: &[u64], share_len: usize, m: u128, values: bool)
    requires
        m > 0,
        share_len > 0,
        share_len % 2 == 0,
        old(acc).len() == share_len,
    ensures
        final(acc).len() == share_len,
        forall|k: int|
            0 <= k < share_len / 2 ==> pair_at(final(acc)@, k) == accumulated(
                pair_at(old(acc)@, k) as int,
                shares_pair_sum(others@, share_len as nat, k, others.len() as nat / share_len as nat),
                others.len() as nat / share_len as nat,
                m as nat,
            ),
{
    let n = others.len() / share_len;
    let ghost a0 = acc@;
    let ghost h = share_len / 2;
    let mut p: usize = 0;
    proof {
        lemma_fundamental_div_mod(others.len() as int, share_len as int);
    }
    while p < n
        invariant
            m > 0,
            share_len > 0,
            share_len % 2 == 0,
            h == share_len / 2,
            n == others.len() / share_len,
            n * share_len <= others.len(),
            acc.len() == share_len,
            p <= n,
            forall|k: int|
                0 <= k < h ==> pair_at(acc@, k) == accumulated(
                    pair_at(a0, k) as int,
                    shares_pair_sum(others@, share_len as nat, k, p as nat),
                    p as nat,
                    m as nat,
                ),
        decreases n - p,
    {
        proof {
            lemma_mul_inequality(p as int + 1, n as int, share_len as int);
            lemma_mul_is_distributive_add_other_way(share_len as int, p as int, 1);
        }
        let start = p * share_len;
        let ghost before = acc@;
        let share = &others[start..start + share_len];
        if values {
            aggregate_value_shares_u128(acc, share, m);
        } else {
            aggregate_e_shares_u128(acc, share, m);
        }
        proof {
            assert(common_pairs(share_len as nat, share_len as nat) == h);
            assert forall|k: int| 0 <= k < h implies pair_at(acc@, k) == accumulated(
                pair_at(a0, k) as int,
                shares_pair_sum(others@, share_len as nat, k, (p + 1) as nat),
                (p + 1) as nat,
                m as nat,
            ) by {
                lemma_share_pair(others@, share_len as nat, p as int, k);
                assert(share@ == others@.subrange(start as int, start + share_len));
                let x = pair_at(others@, p * h + k);
                assert(pair_at(acc@, k) as int == (pair_at(before, k) + x) as int % (m as int));
                assert(shares_pair_sum(others@, share_len as nat, k, (p + 1) as nat)
                    == shares_pair_sum(others@, share_len as nat, k, p as nat) + x);
                if p > 0 {
                    lemma_add_mod(
                        (pair_at(a0, k) + shares_pair_sum(others@, share_len as nat, k, p as nat)) as int,
                        x as int,
                        m as int,
                    );
                }
            }
        }
        p = p + 1;
    }
}

/// Party 0's opening in the `u128` fast path.
///
/// `p0_e_share` and `p0_value_share` are party 0's error and value shares;
/// `other_e_shares` and `other_value_shares` hold the other parties' shares of
/// `share_len` limbs one after another; `r0_q_prime` is party 0's q'-random.
/// The error shares are summed modulo `dp` into `p0_e_share` and centered; the
/// value shares, with the centered error removed and the random added, are
/// summed modulo `qp` into `p0_value_share`; each opened value is rounded to
/// the commit coefficient `round(value / dp)` in `final_commit`, as far as
/// `final_commit` reaches.
pub fn open_shares_u128(
    p0_e_share: &mut [u64],
    other_e_shares: &[u64],
    p0_value_share: &mut [u64],
    other_value_shares: &[u64],
    r0_q_prime: &[u64],
    share_len: usize,
    dp: u128,
    qp: u128,
    final_commit: &mut [u32],
)
    requires
        share_len > 0,
        share_len % 2 == 0,
        old(p0_e_share).len() == share_len,
        old(p0_value_share).len() == share_len,
        r0_q_prime.len() == share_len,
        dp > 0,
        qp > 0,
    ensures
        final(p0_e_share).len() == share_len,
        final(p0_value_share).len() == share_len,
        final(final_commit).len() == old(final_commit).len(),
        forall|k: int|
            0 <= k < share_len / 2 ==> pair_at(final(p0_e_share)@, k) == centered(
                summed_error(old(p0_e_share)@, other_e_shares@, share_len as nat, k, dp as nat) as nat,
                dp as nat,
            ),
        forall|k: int|
            0 <= k < share_len / 2 ==> pair_at(final(p0_value_share)@, k) == opened_value(
                old(p0_e_share)@,
                other_e_shares@,
                old(p0_value_share)@,
                other_value_shares@,
                r0_q_prime@,
                share_len as nat,
                k,
                dp as nat,
                qp as nat,
            ),
        forall|k: int|
            0 <= k < old(final_commit).len() && k < share_len / 2 ==> final(final_commit)@[k]
                == round_div(
                opened_value(
                    old(p0_e_share)@,
                    other_e_shares@,
                    old(p0_value_share)@,
                    other_value_shares@,
                    r0_q_prime@,
                    share_len as nat,
                    k,
                    dp as nat,
                    qp as nat,
                ) as nat,
                dp as nat,
            ) % u32_modulus(),
        forall|k: int|
            share_len / 2 <= k < old(final_commit).len() ==> final(final_commit)@[k] == old(
                final_commit,
            )@[k],
{
    let ghost e0 = p0_e_share@;
    let ghost v0 = p0_value_share@;
    let ghost h = share_len / 2;
    add_all_shares(p0_e_share, other_e_shares, share_len, dp, false);
    let ghost summed = p0_e_share@;
    center_e_shares_u128(p0_e_share, dp);
    let ghost e_c = p0_e_share@;
    sub_e_add_random_u128(p0_value_share, p0_e_share, r0_q_prime, qp);
    proof {
        assert(common_pairs3(share_len as nat, share_len as nat, share_len as nat) == h);
        assert forall|k: int| 0 <= k < h implies pair_at(e_c, k) == centered(
            summed_error(e0, other_e_shares@, share_len as nat, k, dp as nat) as nat,
            dp as nat,
        ) by {
            assert(pair_at(summed, k) == summed_error(e0, other_e_shares@, share_len as nat, k, dp as nat));
        }
    }
    let ghost v_m = p0_value_share@;
    add_all_shares(p0_value_share, other_value_shares, share_len, qp, true);
    proof {
        assert forall|k: int| 0 <= k < h implies pair_at(p0_value_share@, k) == opened_value(
            e0,
            other_e_shares@,
            v0,
            other_value_shares@,
            r0_q_prime@,
            share_len as nat,
            k,
            dp as nat,
            qp as nat,
        ) by {
            assert(pair_at(v_m, k) == (pair_at(v0, k) - pair_at(e_c, k) + pair_at(r0_q_prime@, k))
                % (qp as int));
        }
    }
    let count = if final_commit.len() <= share_len / 2 {
        final_commit.len()
    } else {
        share_len / 2
    };
    let ghost f0 = final_commit@;
    let mut k: usize = 0;
    while k < count
        invariant
            count <= final_commit.len(),
            count <= share_len / 2,
            h == share_len / 2,
            share_len % 2 == 0,
            p0_value_share.len() == share_len,
            final_commit.len() == f0.len(),
            dp > 0,
            k <= count,
            forall|t: int|
                0 <= t < k ==> final_commit@[t] == round_div(pair_at(p0_value_share@, t), dp as nat)
                    % u32_modulus(),
            forall|t: int| k <= t < f0.len() ==> final_commit@[t] == f0[t],
        decreases count - k,
    {
        let v = final_value_to_commit_u128(&p0_value_share[2 * k..2 * k + 2], dp);
        proof {
            let slot = p0_value_share@.subrange(2 * k as int, 2 * k + 2);
            assert(pair_at(slot, 0) == pair_at(p0_value_share@, k as int));
        }
        final_commit[k] = v;
        k = k + 1;
    }
    proof {
        assert forall|t: int| 0 <= t < f0.len() && t < h implies final_commit@[t] == round_div(
            opened_value(
                e0,
                other_e_shares@,
                v0,
                other_value_shares@,
                r0_q_prime@,
                share_len as nat,
                t,
                dp as nat,
                qp as nat,
            ) as nat,
            dp as nat,
        ) % u32_modulus() by {
            assert(t < count);
        }
    }
}


/// `Σ_{lo <= i < hi} f(i)`.
pub open spec fn range_sum(f: spec_fn(int) -> int, lo: int, hi: int) -> int
    decreases hi - lo,
{
    if hi <= lo {
        0
    } else {
        range_sum(f, lo, hi - 1) + f(hi - 1)
    }
}

/// Party `i`'s value scaled from `q` to `q'`: `round(v[i] · q' / q)`.
pub open spec fn scaled_values(v: Seq<nat>, q: nat, qp: nat) -> spec_fn(int) -> int {
    |i: int| round_div(v[i] * qp, q) as int
}

/// Party `i`'s error share, masked with `a[i]` (see `masked_error`).
pub open spec fn error_shares(v: Seq<nat>, a: Seq<nat>, q: nat, qp: nat, dp: nat) -> spec_fn(int) -> int {
    |i: int| masked_error(v[i], q, qp, dp, a[i]) as int
}

/// Party `i`'s value share, masked with `b[i]` (see `masked_value`).
pub open spec fn value_shares(v: Seq<nat>, b: Seq<nat>, q: nat, qp: nat) -> spec_fn(int) -> int {
    |i: int| masked_value(v[i], q, qp, b[i]) as int
}

/// The masks as a function of the party.
pub open spec fn mask_values(a: Seq<nat>) -> spec_fn(int) -> int {
    |i: int| a[i] as int
}

/// What is left beside `Δ'·m` after opening, for a combined error `c` (the
/// decryption error plus the summed masks) and party 0's own mask `t0`: party
/// 0's q'-mask enters the value twice, and a negative `c` is centered to
/// `-c` rather than cancelled.
pub open spec fn opening_slack(c: int, t0: int) -> int {
    if c >= 0 {
        t0
    } else {
        t0 + 2 * c
    }
}

proof fn lemma_range_sum_congruent(f: spec_fn(int) -> int, g: spec_fn(int) -> int, lo: int, hi: int, m: int)
    requires
        m > 0,
        forall|i: int| lo <= i < hi ==> #[trigger] f(i) % m == g(i) % m,
    ensures
        range_sum(f, lo, hi) % m == range_sum(g, lo, hi) % m,
    decreases hi - lo,
{
    if hi > lo {
        lemma_range_sum_congruent(f, g, lo, hi - 1, m);
        assert(f(hi - 1) % m == g(hi - 1) % m);
        lemma_add_mod(range_sum(f, lo, hi - 1), f(hi - 1), m);
        lemma_add_mod(range_sum(g, lo, hi - 1), g(hi - 1), m);
    }
}

proof fn lemma_range_sum_first(f: spec_fn(int) -> int, n: int)
    requires
        n >= 1,
    ensures
        range_sum(f, 0, n) == f(0) + range_sum(f, 1, n),
    decreases n,
{
    if n > 1 {
        lemma_range_sum_first(f, n - 1);
        assert(range_sum(f, 0, n) == range_sum(f, 0, n - 1) + f(n - 1));
        assert(range_sum(f, 1, n) == range_sum(f, 1, n - 1) + f(n - 1));
    } else {
        assert(range_sum(f, 0, 1) == range_sum(f, 0, 0) + f(0));
        assert(range_sum(f, 1, 1) == 0);
    }
}

/// Sums of congruent terms are congruent.
proof fn lemma_congruent_add(x1: int, x2: int, y1: int, y2: int, m: int)
    requires
        m > 0,
        x1 % m == x2 % m,
        y1 % m == y2 % m,
    ensures
        (x1 + y1) % m == (x2 + y2) % m,
{
    lemma_add_mod(x1, y1, m);
    lemma_add_mod(x2, y2, m);
}

proof fn lemma_range_sum_add(f: spec_fn(int) -> int, g: spec_fn(int) -> int, h: spec_fn(int) -> int, lo: int, hi: int)
    requires
        forall|i: int| lo <= i < hi ==> #[trigger] h(i) == f(i) + g(i),
    ensures
        range_sum(h, lo, hi) == range_sum(f, lo, hi) + range_sum(g, lo, hi),
    decreases hi - lo,
{
    if hi > lo {
        lemma_range_sum_add(f, g, h, lo, hi - 1);
        assert(h(hi - 1) == f(hi - 1) + g(hi - 1));
    }
}

proof fn lemma_range_sum_nonnegative(f: spec_fn(int) -> int, lo: int, hi: int)
    requires
        forall|i: int| lo <= i < hi ==> #[trigger] f(i) >= 0,
    ensures
        range_sum(f, lo, hi) >= 0,
    decreases hi - lo,
{
    if hi > lo {
        lemma_range_sum_nonnegative(f, lo, hi - 1);
        assert(f(hi - 1) >= 0);
    }
}

/// `x` and `y` congruent modulo `p · d` are congruent modulo `d`.
proof fn lemma_mod_coarser(x: int, y: int, p: int, d: int)
    requires
        p > 0,
        d > 0,
        x % (p * d) == y % (p * d),
    ensures
        x % d == y % d,
{
    lemma_mul_is_commutative(p, d);
    lemma_mod_mod(x, d, p);
    lemma_mod_mod(y, d, p);
}

/// Rounding `(Δ'·m + δ) mod q'` to a multiple of `Δ'` gives back `m` modulo
/// `p = q' / Δ'` when `-Δ' <= 2δ < Δ'`.
proof fn lemma_round_opened(m: int, delta: int, dp: int, p: int)
    requires
        dp > 0,
        p > 0,
        0 <= m < p,
        -dp <= 2 * delta < dp,
    ensures
        round_div(((dp * m + delta) % (p * dp)) as nat, dp as nat) % (p as nat) == m,
{
    let qp = p * dp;
    let x = dp * m + delta;
    assert(dp * m + dp <= qp) by (nonlinear_arith)
        requires
            m < p,
            dp > 0,
            qp == p * dp,
    ;
    assert(0 <= dp * m) by (nonlinear_arith)
        requires
            m >= 0,
            dp > 0,
    ;
    lemma_mul_is_commutative(dp, m);
    if delta >= 0 {
        lemma_small_mod(x as nat, qp as nat);
        lemma_fundamental_div_mod_converse(x, dp, m, delta);
        lemma_small_mod(m as nat, p as nat);
    } else if m >= 1 {
        assert(dp * m >= dp) by (nonlinear_arith)
            requires
                m >= 1,
                dp > 0,
        ;
        lemma_small_mod(x as nat, qp as nat);
        assert(x == (m - 1) * dp + (dp + delta)) by (nonlinear_arith)
            requires
                x == dp * m + delta,
        ;
        lemma_fundamental_div_mod_converse(x, dp, m - 1, dp + delta);
        lemma_small_mod(m as nat, p as nat);
    } else {
        assert(m == 0);
        assert(x == delta);
        lemma_mod_add_multiples_vanish(delta, qp);
        lemma_small_mod((qp + delta) as nat, qp as nat);
        assert(qp + delta == (p - 1) * dp + (dp + delta)) by (nonlinear_arith)
            requires
                qp == p * dp,
        ;
        lemma_fundamental_div_mod_converse(qp + delta, dp, p - 1, dp + delta);
        lemma_mod_self_0(p);
    }
}

/// Distributed decryption recovers the message. `v[i]` is party `i`'s
/// decrypted value modulo `q`, `a[i]` and `b[i]` its masks modulo `Δ'` and
/// `q'` (with `q' = p · Δ'`); the masks of all parties sum to `s` on both
/// sides, party 0's are the small `t0`, and the scaled values sum to
/// `Δ'·m + err` modulo `q'`. Every party masks its share as
/// `scale_and_mask_share` does, and party 0 opens them as `open_shares_u128`
/// does. When the combined error `c = err + s` and the slack it leaves are
/// within half of `Δ'`, rounding the opened value gives back `m` modulo `p`.
pub proof fn law_opening_recovers_message(
    v: Seq<nat>,
    a: Seq<nat>,
    b: Seq<nat>,
    q: nat,
    p: nat,
    dp: nat,
    qp: nat,
    m: int,
    err: int,
    s: int,
    t0: int,
)
    requires
        v.len() >= 1,
        a.len() == v.len(),
        b.len() == v.len(),
        q > 0,
        p > 0,
        dp > 0,
        qp == p * dp,
        range_sum(mask_values(a), 0, v.len() as int) % (dp as int) == s % (dp as int),
        range_sum(mask_values(b), 0, v.len() as int) % (qp as int) == s % (qp as int),
        a[0] as int == t0 % (dp as int),
        b[0] as int == t0 % (qp as int),
        range_sum(scaled_values(v, q, qp), 0, v.len() as int) % (qp as int) == (dp * m + err) % (
        qp as int),
        0 <= m < p,
        -(dp as int / 2) <= err + s < dp as int / 2,
        -(dp as int) <= 2 * opening_slack(err + s, t0) < dp as int,
    ensures
        ({
            let n = v.len() as int;
            let e = accumulated(
                masked_error(v[0], q, qp, dp, a[0]) as int,
                range_sum(error_shares(v, a, q, qp, dp), 1, n) as nat,
                (n - 1) as nat,
                dp,
            );
            let opened = accumulated(
                (masked_value(v[0], q, qp, b[0]) - centered(e as nat, dp) + b[0]) % (qp as int),
                range_sum(value_shares(v, b, q, qp), 1, n) as nat,
                (n - 1) as nat,
                qp,
            );
            round_div(opened as nat, dp) % p == m
        }),
{
    let n = v.len() as int;
    let di = dp as int;
    let qi = qp as int;
    let c = err + s;
    let w = scaled_values(v, q, qp);
    let es = error_shares(v, a, q, qp, dp);
    let vs = value_shares(v, b, q, qp);
    let ma = mask_values(a);
    let mb = mask_values(b);
    assert(qp > 0) by (nonlinear_arith)
        requires
            qp == p * dp,
            p > 0,
            dp > 0,
    ;
    // every error share is a residue, and all of them sum to Σw + Σa modulo Δ'
    let wa = |i: int| w(i) + ma(i);
    assert forall|i: int| 0 <= i < n implies #[trigger] es(i) % di == wa(i) % di by {
        let wi = round_div(v[i] * qp, q) as int;
        lemma_mod_twice(wi + a[i], di);
        lemma_add_mod(wi, a[i] as int, di);
    }
    lemma_range_sum_congruent(es, wa, 0, n, di);
    lemma_range_sum_add(w, ma, wa, 0, n);
    lemma_range_sum_first(es, n);
    assert forall|i: int| 0 <= i < n implies #[trigger] es(i) >= 0 by {}
    lemma_range_sum_nonnegative(es, 1, n);
    let e0 = masked_error(v[0], q, qp, dp, a[0]) as int;
    let rest_e = range_sum(es, 1, n);
    let e = accumulated(e0, rest_e as nat, (n - 1) as nat, dp);
    lemma_mod_bound(round_div(v[0] * qp, q) as int % di + a[0], di);
    assert(es(0) == e0);
    if n == 1 {
        assert(rest_e == 0);
        lemma_small_mod(e0 as nat, dp);
    } else {
        lemma_mod_twice(e0 + rest_e, di);
    }
    assert(e % di == range_sum(es, 0, n) % di);
    assert(0 <= e < di);
    // Σw ≡ Δ'·m + err (mod Δ') and Σa ≡ s, so e ≡ c (mod Δ')
    lemma_mod_coarser(range_sum(w, 0, n), di * m + err, p as int, di);
    lemma_add_mod(range_sum(w, 0, n), range_sum(ma, 0, n), di);
    lemma_add_mod(di * m + err, s, di);
    lemma_mod_multiples_vanish(m, err + s, di);
    assert(di * m + err + s == di * m + (err + s));
    assert(e % di == c % di);
    lemma_small_mod(e as nat, dp);
    // the centered error
    let cc = centered(e as nat, dp);
    if c >= 0 {
        lemma_small_mod(c as nat, dp);
        assert(e == c);
        assert(cc == c);
    } else {
        lemma_mod_add_multiples_vanish(c, di);
        lemma_small_mod((di + c) as nat, dp);
        assert(e == di + c);
        lemma_mod_sub_multiples_vanish(0 - c, di);
        lemma_small_mod((0 - c) as nat, dp);
        assert(cc == 0 - c);
    }
    // the opened value is Δ'·m + slack modulo q'
    let wb = |i: int| w(i) + mb(i);
    assert forall|i: int| 0 <= i < n implies #[trigger] vs(i) % qi == wb(i) % qi by {
        let wi = round_div(v[i] * qp, q) as int;
        lemma_mod_twice(wi + b[i], qi);
    }
    lemma_range_sum_congruent(vs, wb, 0, n, qi);
    lemma_range_sum_add(w, mb, wb, 0, n);
    lemma_range_sum_first(vs, n);
    assert forall|i: int| 0 <= i < n implies #[trigger] vs(i) >= 0 by {}
    lemma_range_sum_nonnegative(vs, 1, n);
    let v0 = masked_value(v[0], q, qp, b[0]) as int;
    let start = (v0 - cc + b[0]) % qi;
    let rest_v = range_sum(vs, 1, n);
    let opened = accumulated(start, rest_v as nat, (n - 1) as nat, qp);
    let total = range_sum(vs, 0, n);
    // opened ≡ Σ vs + b0 - cc (mod q')
    if n == 1 {
        assert(rest_v == 0);
        assert(opened == start);
    } else {
        lemma_add_mod(v0 - cc + b[0], rest_v, qi);
    }
    assert(opened % qi == (total + b[0] - cc) % qi) by {
        lemma_mod_twice(v0 - cc + b[0], qi);
        if n > 1 {
            lemma_mod_twice(v0 - cc + b[0] + rest_v, qi);
        }
        assert(total == v0 + rest_v);
    }
    // Σ vs ≡ Σw + Σb ≡ Δ'·m + err + s, and b0 ≡ t0
    assert(total % qi == (range_sum(w, 0, n) + range_sum(mb, 0, n)) % qi);
    lemma_congruent_add(range_sum(w, 0, n), di * m + err, range_sum(mb, 0, n), s, qi);
    assert(total % qi == (di * m + err + s) % qi);
    lemma_mod_twice(t0, qi);
    assert((b[0] as int) % qi == t0 % qi);
    lemma_congruent_add(total, di * m + err + s, b[0] as int, t0, qi);
    lemma_congruent_add(total + b[0], di * m + err + s + t0, 0 - cc, 0 - cc, qi);
    let delta = opening_slack(c, t0);
    assert(di * m + err + s + t0 + (0 - cc) == di * m + delta);
    assert(total + b[0] + (0 - cc) == total + b[0] - cc);
    assert(opened % qi == (di * m + delta) % qi);
    lemma_mod_bound(opened, qi);
    if n == 1 {
        lemma_mod_bound(v0 - cc + b[0], qi);
    }
    assert(0 <= opened < qi);
    lemma_small_mod(opened as nat, qp);
    assert(opened == (di * m + delta) % qi);
    assert(p * dp == qi);
    lemma_round_opened(m, delta, di, p as int);
}


/// Value `c` of two limbs of the `t`-th share is pair `t · share_len / 2 + c`.
proof fn lemma_share_value_pair(s: Seq<u64>, share_len: nat, t: int, c: int)
    requires
        share_len % 2 == 0,
        0 <= t,
        0 <= c < share_len / 2,
        (t + 1) * share_len <= s.len(),
    ensures
        share_value(s, share_len, 2, t, c) == pair_at(s, t * (share_len / 2) + c),
{
    let h = share_len / 2;
    let i = t * h + c;
    assert(t * share_len == 2 * (t * h)) by (nonlinear_arith)
        requires
            share_len == 2 * h,
    ;
    lemma_mul_is_distributive_add_other_way(share_len as int, t, 1);
    assert(t * h >= 0) by (nonlinear_arith)
        requires
            t >= 0,
    ;
    lemma_chunk_two_is_pair(s, i);
    assert(i * 2 == t * share_len + c * 2);
}

proof fn lemma_share_sums_agree(s: Seq<u64>, share_len: nat, c: int, n: nat)
    requires
        share_len % 2 == 0,
        0 <= c < share_len / 2,
        n * share_len <= s.len(),
    ensures
        share_value_sum(s, share_len, 2, c, n) == shares_pair_sum(s, share_len, c, n),
    decreases n,
{
    if n > 0 {
        lemma_mul_inequality((n - 1) as int, n as int, share_len as int);
        lemma_share_sums_agree(s, share_len, c, (n - 1) as nat);
        lemma_share_value_pair(s, share_len, n - 1, c);
    }
}

/// The two paths of aggregating shares agree: adding every other party's
/// share into party 0's pair by pair (`aggregate_e_shares_u128` once per
/// party, as `open_shares_u128` does) leaves the same limbs as the
/// multi-limb fallback (`aggregate_e_shares_biguint`) with values of two limbs,
/// for residues modulo `m`.
pub proof fn law_aggregation_paths_agree(p0: Seq<u64>, others: Seq<u64>, fast: Seq<u64>, slow: Seq<u64>, m: nat)
    requires
        m > 0,
        p0.len() > 0,
        p0.len() % 2 == 0,
        fast.len() == p0.len(),
        slow.len() == p0.len(),
        forall|c: int| 0 <= c < p0.len() / 2 ==> pair_at(p0, c) < m,
        forall|c: int|
            0 <= c < p0.len() / 2 ==> #[trigger] pair_at(fast, c) == accumulated(
                pair_at(p0, c) as int,
                shares_pair_sum(others, p0.len(), c, others.len() / p0.len()),
                others.len() / p0.len(),
                m,
            ),
        forall|c: int|
            0 <= c < p0.len() as nat / 2 ==> #[trigger] chunk_at(slow, 2, c) == (chunk_at(p0, 2, c)
                + share_value_sum(others, p0.len(), 2, c, whole_shares(others.len(), p0.len())))
                % m,
    ensures
        fast == slow,
{
    let l = p0.len();
    let n = others.len() / l;
    lemma_fundamental_div_mod(others.len() as int, l as int);
    lemma_mul_is_commutative(l as int, n as int);
    assert forall|c: int| 0 <= c < p0.len() / 2 implies #[trigger] pair_at(fast, c) == pair_at(
        slow,
        c,
    ) by {
        lemma_chunk_two_is_pair(p0, c);
        lemma_chunk_two_is_pair(slow, c);
        lemma_share_sums_agree(others, l, c, n);
        assert(chunk_at(slow, 2, c) == (chunk_at(p0, 2, c) + share_value_sum(
            others,
            l,
            2,
            c,
            n,
        )) % m);
        if n == 0 {
            lemma_small_mod(pair_at(p0, c), m);
        }
    }
    lemma_pairs_equal(fast, slow);
}

} // verus!
