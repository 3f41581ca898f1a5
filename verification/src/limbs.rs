//! Little-endian 64-bit limb arithmetic: the value model of multi-word
//! unsigned integers and the lemmas the rest of the crate builds on.
use vstd::arithmetic::div_mod::*;
use vstd::arithmetic::mul::*;
use vstd::prelude::*;

verus! {

/// The limb base, 2^64.
pub open spec fn base() -> nat {
    0x1_0000_0000_0000_0000
}

/// 2^(64 n).
pub open spec fn pow64(n: nat) -> nat
    decreases n,
{
    if n == 0 {
        1
    } else {
        base() * pow64((n - 1) as nat)
    }
}

/// The value of a little-endian sequence of 64-bit limbs.
pub open spec fn limbs_value(s: Seq<u64>) -> nat
    decreases s.len(),
{
    if s.len() == 0 {
        0
    } else {
        limbs_value(s.drop_last()) + s.last() as nat * pow64((s.len() - 1) as nat)
    }
}

pub proof fn lemma_pow64_pos(n: nat)
    ensures
        pow64(n) > 0,
    decreases n,
{
    if n > 0 {
        lemma_pow64_pos((n - 1) as nat);
        lemma_mul_strictly_positive(base() as int, pow64((n - 1) as nat) as int);
    }
}

pub proof fn lemma_pow64_adds(a: nat, b: nat)
    ensures
        pow64(a + b) == pow64(a) * pow64(b),
    decreases a,
{
    if a > 0 {
        let a1 = (a - 1) as nat;
        lemma_pow64_adds(a1, b);
        assert(a1 + b == (a + b - 1) as nat);
        assert(pow64(a + b) == base() * pow64(a1 + b));
        assert(pow64(a) == base() * pow64(a1));
        lemma_mul_is_associative(base() as int, pow64(a1) as int, pow64(b) as int);
    } else {
        assert(pow64(0) == 1);
        assert(a + b == b);
    }
}

pub proof fn lemma_pow64_small()
    ensures
        pow64(0) == 1,
        pow64(1) == base(),
        pow64(2) == base() * base(),
{
    reveal_with_fuel(pow64, 3);
}

pub proof fn lemma_pow64_monotone(a: nat, b: nat)
    requires
        a <= b,
    ensures
        pow64(a) <= pow64(b),
    decreases b,
{
    if a < b {
        lemma_pow64_monotone(a, (b - 1) as nat);
        lemma_pow64_pos((b - 1) as nat);
        lemma_mul_inequality(1, base() as int, pow64((b - 1) as nat) as int);
    }
}

/// A sequence of `n` limbs holds a value below 2^(64 n).
pub proof fn lemma_limbs_bound(s: Seq<u64>)
    ensures
        limbs_value(s) < pow64(s.len()),
    decreases s.len(),
{
    if s.len() > 0 {
        let n = (s.len() - 1) as nat;
        lemma_limbs_bound(s.drop_last());
        lemma_pow64_pos(n);
        lemma_mul_inequality(s.last() as int, base() - 1, pow64(n) as int);
        lemma_mul_is_distributive_sub_other_way(pow64(n) as int, base() as int, 1);
        lemma_mul_is_commutative(base() as int, pow64(n) as int);
    }
}

/// Splitting a limb sequence at `j` splits its value.
pub proof fn lemma_limbs_split(s: Seq<u64>, j: int)
    requires
        0 <= j <= s.len(),
    ensures
        limbs_value(s) == limbs_value(s.take(j)) + pow64(j as nat) * limbs_value(s.skip(j)),
    decreases s.len(),
{
    if j == s.len() {
        assert(s.take(j) =~= s);
        assert(s.skip(j) =~= Seq::<u64>::empty());
        assert(limbs_value(s.skip(j)) == 0);
        lemma_mul_basics(pow64(j as nat) as int);
    } else {
        let n = s.len();
        let dl = s.drop_last();
        lemma_limbs_split(dl, j);
        assert(dl.take(j) =~= s.take(j));
        let hi = s.skip(j);
        assert(hi.drop_last() =~= dl.skip(j));
        assert(hi.last() == s.last());
        lemma_pow64_adds(j as nat, (n - 1 - j) as nat);
        assert(j as nat + (n - 1 - j) as nat == (n - 1) as nat);
        lemma_mul_is_distributive_add(
            pow64(j as nat) as int,
            limbs_value(dl.skip(j)) as int,
            s.last() as int * pow64((n - 1 - j) as nat) as int,
        );
        lemma_mul_is_associative(
            pow64(j as nat) as int,
            s.last() as int,
            pow64((n - 1 - j) as nat) as int,
        );
        lemma_mul_is_commutative(pow64(j as nat) as int, s.last() as int);
        lemma_mul_is_associative(
            s.last() as int,
            pow64(j as nat) as int,
            pow64((n - 1 - j) as nat) as int,
        );
    }
}

/// Appending a limb adds it at the top position.
pub proof fn lemma_limbs_push(s: Seq<u64>, x: u64)
    ensures
        limbs_value(s.push(x)) == limbs_value(s) + x as nat * pow64(s.len()),
{
    assert(s.push(x).drop_last() =~= s);
}

/// All-zero limbs hold the value zero.
pub proof fn lemma_limbs_zero(s: Seq<u64>)
    requires
        forall|i: int| 0 <= i < s.len() ==> s[i] == 0,
    ensures
        limbs_value(s) == 0,
    decreases s.len(),
{
    if s.len() > 0 {
        lemma_limbs_zero(s.drop_last());
    }
}

/// A non-zero limb at position `k` makes the value at least 2^(64 k).
pub proof fn lemma_limbs_lower_bound(s: Seq<u64>, k: int)
    requires
        0 <= k < s.len(),
        s[k] != 0,
    ensures
        limbs_value(s) >= pow64(k as nat),
{
    lemma_limbs_split(s, k);
    let hi = s.skip(k);
    lemma_limbs_split(hi, 1);
    lemma_limbs_short(hi.take(1));
    assert(hi.take(1)[0] == s[k]);
    lemma_pow64_pos(1);
    lemma_mul_nonnegative(pow64(1) as int, limbs_value(hi.skip(1)) as int);
    lemma_mul_inequality(1, limbs_value(hi) as int, pow64(k as nat) as int);
}

/// The value of one limb, and of two limbs.
pub proof fn lemma_limbs_short(s: Seq<u64>)
    requires
        s.len() <= 2,
    ensures
        s.len() == 0 ==> limbs_value(s) == 0,
        s.len() == 1 ==> limbs_value(s) == s[0] as nat,
        s.len() == 2 ==> limbs_value(s) == s[0] as nat + s[1] as nat * base(),
{
    lemma_pow64_small();
    if s.len() == 1 {
        assert(s.drop_last() =~= Seq::<u64>::empty());
        assert(limbs_value(s) == limbs_value(s.drop_last()) + s[0] as nat * pow64(0));
    }
    if s.len() == 2 {
        let t = s.drop_last();
        assert(t.drop_last() =~= Seq::<u64>::empty());
        assert(limbs_value(t) == limbs_value(t.drop_last()) + t[0] as nat * pow64(0));
        assert(limbs_value(s) == limbs_value(t) + s[1] as nat * pow64(1));
    }
}

/// Euclidean remainder facts used throughout: the reduction of a sum.
pub proof fn lemma_add_mod(a: int, b: int, m: int)
    requires
        m > 0,
    ensures
        (a % m + b % m) % m == (a + b) % m,
        (a % m + b) % m == (a + b) % m,
        (a - b % m) % m == (a - b) % m,
        (a % m - b % m) % m == (a - b) % m,
{
    lemma_add_mod_noop(a, b, m);
    lemma_mod_twice(a, m);
    lemma_add_mod_noop(a % m, b, m);
    lemma_mod_twice(b, m);
    lemma_sub_mod_noop(a, b, m);
    lemma_sub_mod_noop(a, b % m, m);
    lemma_sub_mod_noop(a % m, b % m, m);
}

} // verus!
