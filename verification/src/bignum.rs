//! Multi-limb unsigned integers held as little-endian `u64` slices: carry and
//! borrow chains, modular addition, subtraction and negation on residues, and
//! the arbitrary-precision products and quotients of the `num` crate.
use crate::limbs::{
    base, lemma_limbs_bound, lemma_limbs_lower_bound, lemma_limbs_push, lemma_limbs_short, lemma_limbs_split,
    lemma_limbs_zero, lemma_pow64_monotone, lemma_pow64_pos, limbs_value, pow64,
};
use vstd::arithmetic::div_mod::*;
use vstd::arithmetic::mul::*;
use num::Integer;
use vstd::prelude::*;

verus! {

/// The value of a slice of limbs.
pub open spec fn value_of(s: &[u64]) -> nat {
    limbs_value(s@)
}

proof fn lemma_take_step(s: Seq<u64>, i: int)
    requires
        0 <= i < s.len(),
    ensures
        limbs_value(s.take(i + 1)) == limbs_value(s.take(i)) + s[i] as nat * pow64(i as nat),
{
    assert(s.take(i + 1).drop_last() =~= s.take(i));
}

proof fn lemma_pow64_step(i: nat)
    ensures
        pow64(i + 1) == base() * pow64(i),
{
    assert((i + 1) as nat - 1 == i);
}

/// `a + b` for two limb sequences of one length: the sum limbs and the carry out.
pub fn limbs_add(a: &[u64], b: &[u64]) -> (r: (Vec<u64>, u64))
    requires
        a.len() == b.len(),
    ensures
        r.0.len() == a.len(),
        r.1 <= 1,
        limbs_value(r.0@) + r.1 * pow64(a.len() as nat) == value_of(a) + value_of(b),
{
    let n = a.len();
    let mut out: Vec<u64> = Vec::new();
    let mut carry: u64 = 0;
    let mut i: usize = 0;
    proof {
        assert(a@.take(0) =~= Seq::<u64>::empty());
        assert(b@.take(0) =~= Seq::<u64>::empty());
        assert(pow64(0) == 1);
    }
    while i < n
        invariant
            n == a.len(),
            n == b.len(),
            i <= n,
            out.len() == i,
            carry <= 1,
            limbs_value(out@) + carry * pow64(i as nat) == limbs_value(a@.take(i as int))
                + limbs_value(b@.take(i as int)),
        decreases n - i,
    {
        let s: u128 = a[i] as u128 + b[i] as u128 + carry as u128;
        let lo = (s % 0x1_0000_0000_0000_0000u128) as u64;
        let hi = (s / 0x1_0000_0000_0000_0000u128) as u64;
        proof {
            lemma_take_step(a@, i as int);
            lemma_take_step(b@, i as int);
            lemma_limbs_push(out@, lo);
            lemma_pow64_step(i as nat);
            lemma_fundamental_div_mod(s as int, base() as int);
            let p = pow64(i as nat);
            assert(s == lo + base() * hi);
            assert(lo * p + hi * (base() * p) == (a[i as int] + b[i as int] + carry) * p)
                by (nonlinear_arith)
                requires
                    s == lo + base() * hi,
                    s == a[i as int] + b[i as int] + carry,
            ;
            assert(limbs_value(out@.push(lo)) == limbs_value(out@) + lo * p);
            assert(pow64((i + 1) as nat) == base() * p);
            assert(limbs_value(out@.push(lo)) + hi * pow64((i + 1) as nat) == limbs_value(
                a@.take(i + 1),
            ) + limbs_value(b@.take(i + 1))) by (nonlinear_arith)
                requires
                    limbs_value(out@.push(lo)) == limbs_value(out@) + lo * p,
                    pow64((i + 1) as nat) == base() * p,
                    lo * p + hi * (base() * p) == (a[i as int] + b[i as int] + carry) * p,
                    limbs_value(out@) + carry * p == limbs_value(a@.take(i as int)) + limbs_value(
                        b@.take(i as int),
                    ),
                    limbs_value(a@.take(i + 1)) == limbs_value(a@.take(i as int)) + a[i as int] * p,
                    limbs_value(b@.take(i + 1)) == limbs_value(b@.take(i as int)) + b[i as int] * p,
            ;
        }
        out.push(lo);
        carry = hi;
        i = i + 1;
    }
    proof {
        assert(a@.take(n as int) =~= a@);
        assert(b@.take(n as int) =~= b@);
    }
    (out, carry)
}

/// `a - b` for two limb sequences of one length: the difference limbs and the
/// borrow out (`1` exactly when `a < b`).
pub fn limbs_sub(a: &[u64], b: &[u64]) -> (r: (Vec<u64>, u64))
    requires
        a.len() == b.len(),
    ensures
        r.0.len() == a.len(),
        r.1 <= 1,
        limbs_value(r.0@) + value_of(b) == value_of(a) + r.1 * pow64(a.len() as nat),
        r.1 == 1 <==> value_of(a) < value_of(b),
{
    let n = a.len();
    let mut out: Vec<u64> = Vec::new();
    let mut borrow: u64 = 0;
    let mut i: usize = 0;
    proof {
        assert(a@.take(0) =~= Seq::<u64>::empty());
        assert(b@.take(0) =~= Seq::<u64>::empty());
        assert(pow64(0) == 1);
    }
    while i < n
        invariant
            n == a.len(),
            n == b.len(),
            i <= n,
            out.len() == i,
            borrow <= 1,
            limbs_value(out@) + limbs_value(b@.take(i as int)) == limbs_value(a@.take(i as int))
                + borrow * pow64(i as nat),
        decreases n - i,
    {
        let x = a[i] as u128;
        let y = b[i] as u128 + borrow as u128;
        let (d, nb): (u64, u64) = if x >= y {
            ((x - y) as u64, 0)
        } else {
            ((x + 0x1_0000_0000_0000_0000u128 - y) as u64, 1)
        };
        proof {
            lemma_take_step(a@, i as int);
            lemma_take_step(b@, i as int);
            lemma_limbs_push(out@, d);
            lemma_pow64_step(i as nat);
            let p = pow64(i as nat);
            assert(d * p + b[i as int] * p + borrow * p == a[i as int] * p + nb * (base() * p))
                by (nonlinear_arith)
                requires
                    d + b[i as int] + borrow == a[i as int] + nb * base(),
            ;
        }
        out.push(d);
        borrow = nb;
        i = i + 1;
    }
    proof {
        assert(a@.take(n as int) =~= a@);
        assert(b@.take(n as int) =~= b@);
        lemma_limbs_bound(out@);
        lemma_limbs_bound(a@);
        lemma_limbs_bound(b@);
        assert(limbs_value(out@) + value_of(b) == value_of(a) + borrow * pow64(n as nat));
        if borrow == 1 {
            assert(value_of(a) < value_of(b));
        } else {
            assert(borrow == 0);
            assert(value_of(a) >= value_of(b));
        }
    }
    (out, borrow)
}

/// Copies `src` into `dst` limb by limb.
fn copy_limbs(dst: &mut [u64], src: &[u64])
    requires
        old(dst).len() == src.len(),
    ensures
        final(dst)@ == src@,
{
    let n = src.len();
    let mut i: usize = 0;
    while i < n
        invariant
            n == src.len(),
            dst.len() == n,
            i <= n,
            forall|j: int| 0 <= j < i ==> dst@[j] == src@[j],
        decreases n - i,
    {
        dst[i] = src[i];
        i = i + 1;
    }
    assert(dst@ =~= src@);
}

/// Whether every limb is zero, that is whether the value is zero.
pub fn limbs_is_zero(a: &[u64]) -> (r: bool)
    ensures
        r <==> value_of(a) == 0,
{
    let n = a.len();
    let mut i: usize = 0;
    while i < n
        invariant
            n == a.len(),
            i <= n,
            forall|j: int| 0 <= j < i ==> a@[j] == 0,
        decreases n - i,
    {
        if a[i] != 0 {
            proof {
                lemma_limbs_lower_bound(a@, i as int);
                lemma_pow64_pos(i as nat);
            }
            return false;
        }
        i = i + 1;
    }
    proof {
        lemma_limbs_zero(a@);
    }
    true
}

/// Whether `a >= b`, for two limb sequences of one length.
pub fn limbs_ge(a: &[u64], b: &[u64]) -> (r: bool)
    requires
        a.len() == b.len(),
    ensures
        r <==> value_of(a) >= value_of(b),
{
    let (_, borrow) = limbs_sub(a, b);
    borrow == 0
}

/// `a ← (a + b) mod m` on residues `a, b < m`, all of one length.
pub fn add_modulo_assign(a: &mut [u64], b: &[u64], m: &[u64])
    requires
        old(a).len() == b.len(),
        b.len() == m.len(),
        value_of(old(a)) < value_of(m),
        value_of(b) < value_of(m),
    ensures
        final(a).len() == old(a).len(),
        value_of(final(a)) == (value_of(old(a)) + value_of(b)) % value_of(m),
        value_of(final(a)) < value_of(m),
{
    let ghost n = m.len() as nat;
    let (s, carry) = limbs_add(a, b);
    let (d, borrow) = limbs_sub(&s, m);
    let ghost va = value_of(a);
    let ghost vb = value_of(b);
    let ghost vm = value_of(m);
    proof {
        lemma_limbs_bound(m@);
        lemma_limbs_bound(s@);
        lemma_limbs_bound(d@);
    }
    if carry == 1 || borrow == 0 {
        proof {
            assert(limbs_value(d@) == va + vb - vm);
            lemma_fundamental_div_mod_converse((va + vb) as int, vm as int, 1, (va + vb - vm) as int);
        }
        copy_limbs(a, &d);
    } else {
        proof {
            lemma_small_mod((va + vb) as nat, vm);
        }
        copy_limbs(a, &s);
    }
}

/// `a ← (a - b) mod m` on residues `a, b < m`, all of one length.
pub fn sub_modulo_assign(a: &mut [u64], b: &[u64], m: &[u64])
    requires
        old(a).len() == b.len(),
        b.len() == m.len(),
        value_of(old(a)) < value_of(m),
        value_of(b) < value_of(m),
    ensures
        final(a).len() == old(a).len(),
        value_of(final(a)) == (value_of(old(a)) - value_of(b)) % (value_of(m) as int),
        value_of(final(a)) < value_of(m),
{
    let (d, borrow) = limbs_sub(a, b);
    let ghost va = value_of(a);
    let ghost vb = value_of(b);
    let ghost vm = value_of(m);
    proof {
        lemma_limbs_bound(m@);
        lemma_limbs_bound(d@);
    }
    if borrow == 1 {
        let (s, _) = limbs_add(&d, m);
        proof {
            lemma_limbs_bound(s@);
            assert(limbs_value(s@) == va + vm - vb);
            lemma_fundamental_div_mod_converse(va - vb, vm as int, -1, (va + vm - vb) as int);
        }
        copy_limbs(a, &s);
    } else {
        proof {
            lemma_small_mod((va - vb) as nat, vm);
        }
        copy_limbs(a, &d);
    }
}

/// `a ← (-a) mod m` on a residue `a < m` of the length of `m`.
pub fn neg_modulo_assign(a: &mut [u64], m: &[u64])
    requires
        old(a).len() == m.len(),
        value_of(old(a)) < value_of(m),
    ensures
        final(a).len() == old(a).len(),
        value_of(final(a)) == (0 - value_of(old(a))) % (value_of(m) as int),
{
    let ghost va = value_of(a);
    let ghost vm = value_of(m);
    if limbs_is_zero(a) {
        proof {
            lemma_small_mod(0, vm);
        }
    } else {
        let (d, _) = limbs_sub(m, a);
        proof {
            lemma_limbs_bound(d@);
            lemma_limbs_bound(m@);
            lemma_fundamental_div_mod_converse(0 - va, vm as int, -1, (vm - va) as int);
        }
        copy_limbs(a, &d);
    }
}

/// `out ← m - r` for a single-limb `r <= m`, with `out` as long as `m`.
pub fn sub_value(m: &[u64], r: u64, out: &mut [u64])
    requires
        old(out).len() == m.len(),
        m.len() > 0,
        r <= value_of(m),
    ensures
        final(out).len() == m.len(),
        value_of(final(out)) == value_of(m) - r,
{
    let n = m.len();
    let mut rv: Vec<u64> = Vec::new();
    rv.push(r);
    let mut i: usize = 1;
    while i < n
        invariant
            n == m.len(),
            1 <= i <= n,
            rv.len() == i,
            rv@[0] == r,
            forall|j: int| 1 <= j < i ==> rv@[j] == 0,
        decreases n - i,
    {
        rv.push(0);
        i = i + 1;
    }
    proof {
        lemma_limbs_split(rv@, 1);
        lemma_limbs_zero(rv@.skip(1));
        lemma_limbs_short(rv@.take(1));
        lemma_mul_basics(pow64(1) as int);
        assert(limbs_value(rv@) == r);
    }
    let (d, _) = limbs_sub(m, &rv);
    proof {
        lemma_limbs_bound(d@);
        lemma_limbs_bound(m@);
    }
    copy_limbs(out, &d);
}

/// `a / 2`, limb by limb from the most significant end.
pub fn limbs_half(a: &[u64]) -> (r: Vec<u64>)
    ensures
        r.len() == a.len(),
        limbs_value(r@) == value_of(a) / 2,
{
    let n = a.len();
    let mut out: Vec<u64> = Vec::new();
    let mut k: usize = 0;
    while k < n
        invariant
            n == a.len(),
            k <= n,
            out.len() == k,
        decreases n - k,
    {
        out.push(0);
        k = k + 1;
    }
    let mut rem: u64 = 0;
    let mut i: usize = n;
    proof {
        assert(a@.skip(n as int) =~= Seq::<u64>::empty());
        assert(out@.skip(n as int) =~= Seq::<u64>::empty());
    }
    while i > 0
        invariant
            n == a.len(),
            i <= n,
            out.len() == n,
            rem <= 1,
            2 * limbs_value(out@.skip(i as int)) + rem == limbs_value(a@.skip(i as int)),
        decreases i,
    {
        let j = i - 1;
        let cur: u128 = rem as u128 * 0x1_0000_0000_0000_0000u128 + a[j] as u128;
        let h = (cur / 2) as u64;
        let nr = (cur % 2) as u64;
        proof {
            lemma_limbs_split(a@.skip(j as int), 1);
            assert(a@.skip(j as int).skip(1) =~= a@.skip(i as int));
            assert(a@.skip(j as int).take(1) =~= seq![a@[j as int]]);
            lemma_limbs_split(out@.update(j as int, h).skip(j as int), 1);
            assert(out@.update(j as int, h).skip(j as int).skip(1) =~= out@.skip(i as int));
            assert(out@.update(j as int, h).skip(j as int).take(1) =~= seq![h]);
            lemma_limbs_short(seq![h]);
            lemma_limbs_short(seq![a@[j as int]]);
            assert(pow64(1) == base()) by {
                assert(pow64(0) == 1);
            }
            assert(limbs_value(seq![h]) == h);
            assert(limbs_value(seq![a@[j as int]]) == a@[j as int]);
            lemma_fundamental_div_mod(cur as int, 2);
            let vo = limbs_value(out@.skip(i as int));
            assert(2 * (h + base() * vo) + nr == a@[j as int] + base() * (2 * vo + rem))
                by (nonlinear_arith)
                requires
                    cur == rem * base() + a@[j as int],
                    cur == 2 * h + nr,
            ;
        }
        out.set(j, h);
        rem = nr;
        i = j;
    }
    proof {
        assert(a@.skip(0) =~= a@);
        assert(out@.skip(0) =~= out@);
        lemma_fundamental_div_mod_converse(value_of(a) as int, 2, limbs_value(out@) as int, rem as int);
    }
    out
}

/// `a` widened with zero limbs to `len` limbs.
pub fn limbs_pad(a: &[u64], len: usize) -> (r: Vec<u64>)
    requires
        a.len() <= len,
    ensures
        r.len() == len,
        limbs_value(r@) == value_of(a),
        r@.take(a.len() as int) == a@,
{
    let mut r: Vec<u64> = Vec::new();
    let mut i: usize = 0;
    while i < len
        invariant
            a.len() <= len,
            i <= len,
            r.len() == i,
            forall|j: int| 0 <= j < i && j < a.len() ==> r@[j] == a@[j],
            forall|j: int| a.len() <= j < i ==> r@[j] == 0,
        decreases len - i,
    {
        if i < a.len() {
            r.push(a[i]);
        } else {
            r.push(0);
        }
        i = i + 1;
    }
    proof {
        let n = a.len() as int;
        assert(r@.take(n) =~= a@);
        lemma_limbs_split(r@, n);
        lemma_limbs_zero(r@.skip(n));
        lemma_mul_basics(pow64(n as nat) as int);
    }
    r
}

/// `2 · a`.
pub fn limbs_double(a: &[u64]) -> (r: Vec<u64>)
    ensures
        limbs_value(r@) == 2 * value_of(a),
{
    let (mut s, carry) = limbs_add(a, a);
    if carry == 1 {
        proof {
            lemma_limbs_push(s@, 1);
        }
        s.push(1);
    }
    s
}

/// Whether `a >= b`, for limb numbers of any lengths.
pub fn limbs_ge_any(a: &[u64], b: &[u64]) -> (r: bool)
    ensures
        r <==> value_of(a) >= value_of(b),
{
    let len = if a.len() <= b.len() {
        b.len()
    } else {
        a.len()
    };
    let ap = limbs_pad(a, len);
    let bp = limbs_pad(b, len);
    limbs_ge(ap.as_slice(), bp.as_slice())
}

/// Whether `2 · rem >= q`, for limb numbers of any lengths.
pub fn limbs_double_ge(rem: &[u64], q: &[u64]) -> (r: bool)
    ensures
        r <==> 2 * value_of(rem) >= value_of(q),
{
    let d = limbs_double(rem);
    limbs_ge_any(d.as_slice(), q)
}

/// `a + 1`.
pub fn limbs_increment(a: &[u64]) -> (r: Vec<u64>)
    ensures
        limbs_value(r@) == value_of(a) + 1,
{
    let mut one_limb: Vec<u64> = Vec::new();
    one_limb.push(1);
    proof {
        lemma_limbs_short(one_limb@);
    }
    if a.len() == 0 {
        proof {
            assert(a@ =~= Seq::<u64>::empty());
        }
        return one_limb;
    }
    let one = limbs_pad(one_limb.as_slice(), a.len());
    let (mut s, carry) = limbs_add(a, one.as_slice());
    if carry == 1 {
        proof {
            lemma_limbs_push(s@, 1);
        }
        s.push(1);
    }
    s
}

/// `dst ← src mod 2^(64 · dst.len())`: the low limbs of `src`, zero-filled.
pub fn store_truncated(dst: &mut [u64], src: &[u64])
    ensures
        final(dst).len() == old(dst).len(),
        limbs_value(final(dst)@) == value_of(src) % pow64(old(dst).len() as nat),
{
    let n = dst.len();
    let mut i: usize = 0;
    while i < n
        invariant
            n == dst.len(),
            i <= n,
            forall|j: int| 0 <= j < i && j < src.len() ==> dst@[j] == src@[j],
            forall|j: int| 0 <= j < i && src.len() <= j ==> dst@[j] == 0,
        decreases n - i,
    {
        if i < src.len() {
            dst[i] = src[i];
        } else {
            dst[i] = 0;
        }
        i = i + 1;
    }
    proof {
        lemma_pow64_pos(n as nat);
        lemma_limbs_bound(dst@);
        if src.len() >= n {
            lemma_limbs_split(src@, n as int);
            assert(src@.take(n as int) =~= dst@);
            lemma_limbs_bound(dst@);
            lemma_mul_is_commutative(pow64(n as nat) as int, limbs_value(src@.skip(n as int)) as int);
            lemma_fundamental_div_mod_converse(
                value_of(src) as int,
                pow64(n as nat) as int,
                limbs_value(src@.skip(n as int)) as int,
                limbs_value(dst@) as int,
            );
        } else {
            let m = src.len() as int;
            lemma_limbs_split(dst@, m);
            assert(dst@.take(m) =~= src@);
            lemma_limbs_zero(dst@.skip(m));
            lemma_mul_basics(pow64(m as nat) as int);
            lemma_small_mod(value_of(src), pow64(n as nat));
        }
    }
}

/// The product of two limb numbers, computed by `num::BigUint` multiplication
/// (`Mul for BigUint`). Claimed: the returned limbs hold exactly the product.
/// The limbs are handed to `num::BigUint::from_slice` as base-2^32 digits
/// through `bytemuck::cast_slice`, which reads each `u64` low half first on the
/// little-endian targets this crate is built for; `to_u64_digits` gives the
/// result least significant limb first.
#[verifier::external_body]
pub(crate) fn num_mul(a: &[u64], b: &[u64]) -> (r: Vec<u64>)
    ensures
        limbs_value(r@) == value_of(a) * value_of(b),
{
    let x = num::BigUint::from_slice(bytemuck::cast_slice(a));
    let y = num::BigUint::from_slice(bytemuck::cast_slice(b));
    (x * y).to_u64_digits()
}

/// Quotient and remainder of two limb numbers, computed by `num::BigUint`'s
/// `Integer::div_rem` (which panics on a zero divisor, hence the `requires`).
/// Claimed: `(a / d, a % d)`. Limbs are converted as in `num_mul`.
#[verifier::external_body]
pub(crate) fn num_div_rem(a: &[u64], d: &[u64]) -> (r: (Vec<u64>, Vec<u64>))
    requires
        value_of(d) > 0,
    ensures
        limbs_value(r.0@) == value_of(a) / value_of(d),
        limbs_value(r.1@) == value_of(a) % value_of(d),
{
    let x = num::BigUint::from_slice(bytemuck::cast_slice(a));
    let y = num::BigUint::from_slice(bytemuck::cast_slice(d));
    let (q, rem) = x.div_rem(&y);
    (q.to_u64_digits(), rem.to_u64_digits())
}

/// The least multiple of `m` that is at least `a`, computed by `num::BigUint`'s
/// `Integer::next_multiple_of` (which reduces `a` modulo `m` and panics on
/// `m == 0`). Claimed: `a` when `m` divides it, else `a + (m - a mod m)`.
/// Limbs are converted as in `num_mul`.
#[verifier::external_body]
pub(crate) fn num_next_multiple_of(a: &[u64], m: &[u64]) -> (r: Vec<u64>)
    requires
        value_of(m) > 0,
    ensures
        limbs_value(r@) == (if value_of(a) % value_of(m) == 0 {
            value_of(a) as int
        } else {
            value_of(a) + (value_of(m) - value_of(a) % value_of(m))
        }),
{
    let x = num::BigUint::from_slice(bytemuck::cast_slice(a));
    let y = num::BigUint::from_slice(bytemuck::cast_slice(m));
    x.next_multiple_of(&y).to_u64_digits()
}

} // verus!
