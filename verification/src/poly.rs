//! Coefficient-wise arithmetic on polynomials over `Z_q`, and multiplication by
//! a monomial in the negacyclic ring `Z_q[X] / (X^n + 1)`.
use crate::parameters::ShoupFactor;
use vstd::arithmetic::div_mod::*;
use vstd::prelude::*;

verus! {

/// The number of coefficients two slices have in common.
pub open spec fn common_len(a: nat, b: nat) -> nat {
    if a <= b {
        a
    } else {
        b
    }
}

/// `a[i] ← (a[i] + b[i]) mod q` over the coefficients both slices hold.
pub fn add_element_wise_assign(a: &mut [u32], b: &[u32], q: u32)
    requires
        q > 0,
    ensures
        final(a).len() == old(a).len(),
        forall|i: int|
            0 <= i < common_len(old(a).len() as nat, b.len() as nat) ==> final(a)@[i] == (old(
                a,
            )@[i] + b@[i]) % (q as int),
        forall|i: int|
            common_len(old(a).len() as nat, b.len() as nat) <= i < old(a).len() ==> final(a)@[i]
                == old(a)@[i],
{
    let n = if a.len() <= b.len() {
        a.len()
    } else {
        b.len()
    };
    let ghost a0 = a@;
    let mut i: usize = 0;
    while i < n
        invariant
            n == common_len(a0.len() as nat, b.len() as nat),
            a.len() == a0.len(),
            q > 0,
            i <= n,
            forall|j: int| 0 <= j < i ==> a@[j] == (a0[j] + b@[j]) % (q as int),
            forall|j: int| i <= j < a.len() ==> a@[j] == a0[j],
        decreases n - i,
    {
        a[i] = ((a[i] as u64 + b[i] as u64) % q as u64) as u32;
        i = i + 1;
    }
}

/// `a[i] ← (a[i] - b[i]) mod q` over the coefficients both slices hold.
pub fn sub_element_wise_assign(a: &mut [u32], b: &[u32], q: u32)
    requires
        q > 0,
    ensures
        final(a).len() == old(a).len(),
        forall|i: int|
            0 <= i < common_len(old(a).len() as nat, b.len() as nat) ==> final(a)@[i] == (old(
                a,
            )@[i] - b@[i]) % (q as int),
        forall|i: int|
            common_len(old(a).len() as nat, b.len() as nat) <= i < old(a).len() ==> final(a)@[i]
                == old(a)@[i],
{
    let n = if a.len() <= b.len() {
        a.len()
    } else {
        b.len()
    };
    let ghost a0 = a@;
    let mut i: usize = 0;
    while i < n
        invariant
            n == common_len(a0.len() as nat, b.len() as nat),
            a.len() == a0.len(),
            q > 0,
            i <= n,
            forall|j: int| 0 <= j < i ==> a@[j] == (a0[j] - b@[j]) % (q as int),
            forall|j: int| i <= j < a.len() ==> a@[j] == a0[j],
        decreases n - i,
    {
        let x = a[i] as u64 % q as u64;
        let y = b[i] as u64 % q as u64;
        proof {
            lemma_sub_mod_noop(a[i as int] as int, b[i as int] as int, q as int);
            lemma_mod_add_multiples_vanish(x - y, q as int);
        }
        a[i] = ((x + q as u64 - y) % q as u64) as u32;
        i = i + 1;
    }
}

/// Whether every coefficient is zero.
pub fn is_zero(a: &[u32]) -> (r: bool)
    ensures
        r <==> forall|i: int| 0 <= i < a.len() ==> a@[i] == 0,
{
    let n = a.len();
    let mut i: usize = 0;
    while i < n
        invariant
            n == a.len(),
            i <= n,
            forall|j: int| 0 <= j < i ==> a@[j] == 0,
        decreases n - i,
    {
        if a[i] != 0 {
            return false;
        }
        i = i + 1;
    }
    true
}

/// Coefficient `j` of `p · X^k` in `Z_q[X] / (X^n + 1)`, `n = p.len()`: the
/// coefficient that `X^k` moves to position `j`, negated when it wraps past
/// `X^n` an odd number of times.
pub open spec fn monomial_mul_coeff(p: Seq<u32>, k: nat, j: int, q: nat) -> int {
    let n = p.len() as int;
    let m = (j - k) % (2 * n);
    if m < n {
        p[m] as int
    } else {
        (0 - p[m - n]) % (q as int)
    }
}

/// `poly ← poly · X^k` in `Z_q[X] / (X^n + 1)`.
pub fn mul_monomial_assign(poly: &mut [u32], k: usize, q: u32)
    requires
        q > 0,
        old(poly).len() > 0,
        2 * old(poly).len() <= usize::MAX,
    ensures
        final(poly).len() == old(poly).len(),
        forall|j: int|
            0 <= j < old(poly).len() ==> final(poly)@[j] == monomial_mul_coeff(
                old(poly)@,
                k as nat,
                j,
                q as nat,
            ),
{
    let n = poly.len();
    let two_n = 2 * n;
    let shift = k % two_n;
    let ghost p0 = poly@;
    assert(p0 == old(poly)@);
    let mut out: Vec<u32> = Vec::new();
    let mut j: usize = 0;
    while j < n
        invariant
            n == poly.len(),
            two_n == 2 * n,
            n > 0,
            shift == k % two_n,
            q > 0,
            j <= n,
            out.len() == j,
            poly@ == p0,
            forall|i: int|
                0 <= i < j ==> out@[i] == monomial_mul_coeff(p0, k as nat, i, q as nat),
        decreases n - j,
    {
        let m = if j >= shift {
            j - shift
        } else {
            j + (two_n - shift)
        };
        proof {
            lemma_mod_bound(k as int, two_n as int);
            lemma_sub_mod_noop(j as int, k as int, two_n as int);
            lemma_small_mod(j as nat, two_n as nat);
            lemma_small_mod(m as nat, two_n as nat);
            if j >= shift {
                assert(m == j - shift);
            } else {
                lemma_mod_add_multiples_vanish(j - shift, two_n as int);
                assert(m == two_n + (j - shift));
            }
            assert(m == (j - k) % (2 * n as int));
        }
        let c = if m < n {
            poly[m]
        } else {
            let v = poly[m - n] as u64 % q as u64;
            proof {
                lemma_sub_mod_noop(0, poly[m - n] as int, q as int);
                lemma_mod_add_multiples_vanish(0 - v, q as int);
                lemma_small_mod(0, q as nat);
                assert((q - v) % (q as int) == (0 - poly[m - n] as int) % (q as int));
            }
            ((q as u64 - v) % q as u64) as u32
        };
        out.push(c);
        j = j + 1;
    }
    let mut i: usize = 0;
    while i < n
        invariant
            n == poly.len(),
            out.len() == n,
            i <= n,
            forall|t: int| 0 <= t < n ==> out@[t] == monomial_mul_coeff(p0, k as nat, t, q as nat),
            forall|t: int| 0 <= t < i ==> poly@[t] == out@[t],
        decreases n - i,
    {
        poly[i] = out[i];
        i = i + 1;
    }
    assert forall|t: int| 0 <= t < n implies poly@[t] == monomial_mul_coeff(
        old(poly)@,
        k as nat,
        t,
        q as nat,
    ) by {
        assert(poly@[t] == out@[t]);
    }
}

/// `poly[i] ← poly[i] · factor mod q`, for every coefficient.
pub fn mul_factor_assign(poly: &mut [u32], factor: ShoupFactor)
    requires
        factor.wf(),
    ensures
        final(poly).len() == old(poly).len(),
        forall|i: int|
            0 <= i < old(poly).len() ==> final(poly)@[i] == (old(poly)@[i] * factor.spec_value()) % (
            factor.spec_modulus() as int),
{
    let n = poly.len();
    let ghost p0 = poly@;
    let mut i: usize = 0;
    while i < n
        invariant
            n == poly.len(),
            n == p0.len(),
            factor.wf(),
            i <= n,
            forall|t: int|
                0 <= t < i ==> poly@[t] == (p0[t] * factor.spec_value()) % (
                factor.spec_modulus() as int),
            forall|t: int| i <= t < n ==> poly@[t] == p0[t],
        decreases n - i,
    {
        poly[i] = factor.mul_reduce(poly[i]);
        i = i + 1;
    }
}


/// The sign `X^k` gives coefficient `j` in `Z[X] / (X^n + 1)`: `-1` when the
/// coefficient it brings to `j` wrapped past `X^n` an odd number of times.
pub open spec fn shift_sign(n: nat, k: int, j: int) -> int {
    if (j - k) % (2 * n as int) < n {
        1
    } else {
        -1
    }
}

/// The position whose coefficient `X^k` brings to `j` in `Z[X] / (X^n + 1)`.
pub open spec fn shift_index(n: nat, k: int, j: int) -> int {
    (j - k) % (n as int)
}

/// Coefficient `j` of `p · X^k` is `± p[i]` modulo `q`, with the sign and the
/// position given by `shift_sign` and `shift_index`.
pub proof fn lemma_monomial_signed(p: Seq<u32>, k: nat, j: int, q: nat)
    requires
        p.len() > 0,
        q > 0,
        0 <= j < p.len(),
    ensures
        0 <= shift_index(p.len(), k as int, j) < p.len(),
        monomial_mul_coeff(p, k, j, q) % (q as int) == (shift_sign(p.len(), k as int, j) * p[shift_index(
            p.len(),
            k as int,
            j,
        )]) % (q as int),
{
    let n = p.len() as int;
    let x = j - k;
    let m = x % (2 * n);
    lemma_mod_bound(x, 2 * n);
    lemma_mod_bound(x, n);
    lemma_mod_mod(x, n, 2);
    assert(n * 2 == 2 * n);
    if m < n {
        lemma_small_mod(m as nat, n as nat);
        assert(shift_index(p.len(), k as int, j) == m);
    } else {
        lemma_mod_add_multiples_vanish(m - n, n);
        lemma_small_mod((m - n) as nat, n as nat);
        assert(shift_index(p.len(), k as int, j) == m - n);
        lemma_mod_twice(0 - p[m - n], q as int);
    }
}

/// Shifting by `a` and then by `b` is shifting by `a + b`: the signs
/// multiply and the positions compose.
pub proof fn lemma_shift_compose(n: nat, a: int, b: int, j: int)
    requires
        n > 0,
        0 <= j < n,
    ensures
        0 <= shift_index(n, a, j) < n,
        shift_sign(n, a, j) * shift_sign(n, b, shift_index(n, a, j)) == shift_sign(n, a + b, j),
        shift_index(n, b, shift_index(n, a, j)) == shift_index(n, a + b, j),
{
    let nn = n as int;
    let x = j - a;
    let r = x % (2 * nn);
    let i = x % nn;
    let u = x / (2 * nn);
    let y = i - b;
    lemma_fundamental_div_mod(x, 2 * nn);
    lemma_mod_bound(x, 2 * nn);
    lemma_mod_bound(x, nn);
    lemma_mod_mod(x, nn, 2);
    assert(nn * 2 == 2 * nn);
    let z = y % (2 * nn);
    lemma_mod_bound(y, 2 * nn);
    if r < nn {
        lemma_small_mod(r as nat, nn as nat);
        assert(i == r);
        assert(x - b == (2 * nn) * u + y);
        lemma_mod_multiples_vanish(u, y, 2 * nn);
        assert((x - b) == nn * (2 * u) + y) by (nonlinear_arith)
            requires
                x - b == (2 * nn) * u + y,
        ;
        lemma_mod_multiples_vanish(2 * u, y, nn);
    } else {
        lemma_mod_add_multiples_vanish(r - nn, nn);
        lemma_small_mod((r - nn) as nat, nn as nat);
        assert(i == r - nn);
        assert(x - b == (2 * nn) * u + (y + nn));
        lemma_mod_multiples_vanish(u, y + nn, 2 * nn);
        lemma_add_mod_noop(y, nn, 2 * nn);
        lemma_small_mod(nn as nat, (2 * nn) as nat);
        if z < nn {
            lemma_small_mod((z + nn) as nat, (2 * nn) as nat);
        } else {
            lemma_mod_sub_multiples_vanish(z + nn, 2 * nn);
            lemma_small_mod((z - nn) as nat, (2 * nn) as nat);
        }
        assert((x - b) == nn * (2 * u + 1) + y) by (nonlinear_arith)
            requires
                x - b == (2 * nn) * u + (y + nn),
        ;
        lemma_mod_multiples_vanish(2 * u + 1, y, nn);
    }
}

/// Two residues modulo `q` that are congruent are equal.
pub proof fn lemma_residues_equal(x: int, y: int, q: int)
    requires
        q > 0,
        0 <= x < q,
        0 <= y < q,
        x % q == y % q,
    ensures
        x == y,
{
    lemma_small_mod(x as nat, q as nat);
    lemma_small_mod(y as nat, q as nat);
}

/// Multiplying by `X^a` and then by `X^b` multiplies by `X^(a + b)`: when `r`
/// is `p · X^a` (as `mul_monomial_assign` leaves it) and `p` holds residues
/// modulo `q`, then `r · X^b` is `p · X^(a + b)` coefficient by coefficient.
pub proof fn law_monomial_compose(p: Seq<u32>, r: Seq<u32>, a: nat, b: nat, q: nat)
    requires
        p.len() > 0,
        q > 0,
        r.len() == p.len(),
        forall|i: int| 0 <= i < p.len() ==> p[i] < q,
        forall|j: int| 0 <= j < p.len() ==> r[j] == monomial_mul_coeff(p, a, j, q),
    ensures
        forall|j: int|
            0 <= j < p.len() ==> monomial_mul_coeff(r, b, j, q) == monomial_mul_coeff(
                p,
                a + b,
                j,
                q,
            ),
{
    let n = p.len();
    assert forall|j: int| 0 <= j < n implies monomial_mul_coeff(r, b, j, q) == monomial_mul_coeff(
        p,
        a + b,
        j,
        q,
    ) by {
        let qi = q as int;
        lemma_monomial_signed(r, b, j, q);
        let i = shift_index(n, b as int, j);
        lemma_monomial_signed(p, a, i, q);
        lemma_monomial_signed(p, a + b, j, q);
        lemma_shift_compose(n, b as int, a as int, j);
        let sb = shift_sign(n, b as int, j);
        let sa = shift_sign(n, a as int, i);
        let pi = p[shift_index(n, a as int, i)] as int;
        lemma_monomial_range(p, a, i, q);
        lemma_monomial_range(r, b, j, q);
        lemma_monomial_range(p, a + b, j, q);
        // r[i] ≡ sa · p[..], so sb · r[i] ≡ sb · sa · p[..]
        lemma_mul_mod_noop_right(sb, r[i] as int, qi);
        lemma_mul_mod_noop_right(sb, sa * pi, qi);
        assert(sb * (sa * pi) == (sb * sa) * pi) by (nonlinear_arith);
        assert(b as int + a as int == (a + b) as int);
        lemma_residues_equal(monomial_mul_coeff(r, b, j, q), monomial_mul_coeff(p, a + b, j, q), qi);
    }
}

/// For residues, every coefficient of `p · X^k` is a residue.
pub proof fn lemma_monomial_range(p: Seq<u32>, k: nat, j: int, q: nat)
    requires
        p.len() > 0,
        q > 0,
        0 <= j < p.len(),
        forall|i: int| 0 <= i < p.len() ==> p[i] < q,
    ensures
        0 <= monomial_mul_coeff(p, k, j, q) < q,
{
    let n = p.len() as int;
    let m = (j - k) % (2 * n);
    lemma_mod_bound(j - k, 2 * n);
    if m >= n {
        lemma_mod_bound(0 - p[m - n], q as int);
    }
}

/// Multiplying by `X^n` negates every coefficient and multiplying by `X^(2n)`
/// changes nothing, for residues in `Z_q[X] / (X^n + 1)`.
pub proof fn law_monomial_period(p: Seq<u32>, q: nat)
    requires
        p.len() > 0,
        q > 0,
        forall|i: int| 0 <= i < p.len() ==> p[i] < q,
    ensures
        forall|j: int|
            0 <= j < p.len() ==> monomial_mul_coeff(p, p.len(), j, q) == (0 - p[j]) % (q as int),
        forall|j: int| 0 <= j < p.len() ==> monomial_mul_coeff(p, 2 * p.len(), j, q) == p[j],
{
    let n = p.len() as int;
    assert forall|j: int| 0 <= j < n implies monomial_mul_coeff(p, p.len(), j, q) == (0 - p[j]) % (
    q as int) by {
        lemma_mod_sub_multiples_vanish(j + n, 2 * n);
        lemma_small_mod((j + n) as nat, (2 * n) as nat);
        assert((j - n) % (2 * n) == j + n);
    }
    assert forall|j: int| 0 <= j < n implies monomial_mul_coeff(p, 2 * p.len(), j, q) == p[j] by {
        lemma_mod_sub_multiples_vanish(j, 2 * n);
        lemma_small_mod(j as nat, (2 * n) as nat);
        assert((j - 2 * n) % (2 * n) == j);
    }
}


/// Adding `b` and then subtracting it gives back residues `a`: the states
/// that `add_element_wise_assign` and then `sub_element_wise_assign` leave.
pub proof fn law_add_then_sub(a: Seq<u32>, b: Seq<u32>, c: Seq<u32>, d: Seq<u32>, q: nat)
    requires
        q > 0,
        b.len() == a.len(),
        c.len() == a.len(),
        d.len() == a.len(),
        forall|i: int| 0 <= i < a.len() ==> a[i] < q,
        forall|i: int| 0 <= i < a.len() ==> c[i] == (a[i] + b[i]) % (q as int),
        forall|i: int| 0 <= i < a.len() ==> d[i] == (c[i] - b[i]) % (q as int),
    ensures
        d == a,
{
    assert forall|i: int| 0 <= i < a.len() implies d[i] == a[i] by {
        lemma_sub_mod_noop(a[i] + b[i], b[i] as int, q as int);
        lemma_mod_twice(b[i] as int, q as int);
        lemma_sub_mod_noop_right((a[i] + b[i]) % (q as int), b[i] as int, q as int);
        lemma_sub_mod_noop(a[i] + b[i], b[i] as int, q as int);
        assert((a[i] + b[i] - b[i]) == a[i]);
        lemma_small_mod(a[i] as nat, q);
    }
    assert(d =~= a);
}

} // verus!
