//! The ring folding of the verification phase: `div_v_inplace` undoes the
//! multiplication by `v = Σ_{t < n/G} X^{t·G}` in `Z_q[X] / (X^n + 1)`.
use crate::parameters::ShoupFactor;
use crate::poly::{
    lemma_monomial_signed, lemma_residues_equal, lemma_shift_compose, monomial_mul_coeff,
    shift_index, shift_sign,
};
use crate::protocol::{div_v_coeff, div_v_inplace};
use vstd::arithmetic::div_mod::*;
use vstd::arithmetic::mul::*;
use vstd::prelude::*;

verus! {

/// `Σ_{t < terms}` coefficient `j` of `p · X^{t·g}`.
pub open spec fn v_sum(p: Seq<u32>, g: nat, terms: nat, j: int, q: nat) -> int
    decreases terms,
{
    if terms == 0 {
        0
    } else {
        v_sum(p, g, (terms - 1) as nat, j, q) + monomial_mul_coeff(p, ((terms - 1) * g) as nat, j, q)
    }
}

/// Coefficient `j` of `p · v` modulo `q`, where `v = Σ_{t < n/g} X^{t·g}` and
/// `n = p.len()`.
pub open spec fn mul_by_v_coeff(p: Seq<u32>, g: nat, j: int, q: nat) -> int {
    v_sum(p, g, p.len() / g, j, q) % (q as int)
}

/// The signed term `± p[i]` that `X^k` brings to position `j`.
spec fn shift_term(p: Seq<u32>, k: int, j: int) -> int {
    shift_sign(p.len(), k, j) * p[shift_index(p.len(), k, j)]
}

/// `Σ_{t < terms}` of the signed term of `X^{off + t·g}` at `j`.
spec fn signed_sum(p: Seq<u32>, g: nat, off: int, terms: nat, j: int) -> int
    decreases terms,
{
    if terms == 0 {
        0
    } else {
        signed_sum(p, g, off, (terms - 1) as nat, j) + shift_term(p, off + (terms - 1) * g, j)
    }
}

proof fn lemma_v_sum_signed(p: Seq<u32>, g: nat, terms: nat, j: int, q: nat)
    requires
        p.len() > 0,
        q > 0,
        0 <= j < p.len(),
    ensures
        v_sum(p, g, terms, j, q) % (q as int) == signed_sum(p, g, 0, terms, j) % (q as int),
    decreases terms,
{
    if terms > 0 {
        let t = (terms - 1) as nat;
        lemma_v_sum_signed(p, g, t, j, q);
        let k = (t * g) as nat;
        lemma_monomial_signed(p, k, j, q);
        assert(0int + t * g == k as int);
        lemma_add_mod_noop(v_sum(p, g, t, j, q), monomial_mul_coeff(p, k, j, q), q as int);
        lemma_add_mod_noop(signed_sum(p, g, 0, t, j), shift_term(p, k as int, j), q as int);
    }
}

/// Shifting the whole sum by `X^g` shifts each of its terms.
proof fn lemma_signed_sum_shift(p: Seq<u32>, g: nat, terms: nat, j: int)
    requires
        p.len() > 0,
        0 <= j < p.len(),
    ensures
        0 <= shift_index(p.len(), g as int, j) < p.len(),
        shift_sign(p.len(), g as int, j) * signed_sum(
            p,
            g,
            0,
            terms,
            shift_index(p.len(), g as int, j),
        ) == signed_sum(p, g, g as int, terms, j),
    decreases terms,
{
    let n = p.len();
    let i = shift_index(n, g as int, j);
    lemma_shift_compose(n, g as int, 0, j);
    if terms > 0 {
        let t = (terms - 1) as nat;
        lemma_signed_sum_shift(p, g, t, j);
        lemma_shift_compose(n, g as int, 0int + t * g, j);
        let sg = shift_sign(n, g as int, j);
        let rest = signed_sum(p, g, 0, t, i);
        let si = shift_sign(n, 0int + t * g, i);
        let pi = p[shift_index(n, 0int + t * g, i)] as int;
        assert(g as int + (0int + t * g) == g as int + t * g);
        assert(sg * (rest + si * pi) == sg * rest + (sg * si) * pi) by (nonlinear_arith);
    }
}

/// The sum of the terms at offsets `0` and `g` telescopes.
proof fn lemma_signed_sum_telescope(p: Seq<u32>, g: nat, terms: nat, j: int)
    requires
        p.len() > 0,
        0 <= j < p.len(),
    ensures
        signed_sum(p, g, 0, terms, j) - signed_sum(p, g, g as int, terms, j) == shift_term(p, 0, j)
            - shift_term(p, (terms * g) as int, j),
    decreases terms,
{
    if terms > 0 {
        let t = (terms - 1) as nat;
        lemma_signed_sum_telescope(p, g, t, j);
        assert(g + t * g == terms * g) by (nonlinear_arith)
            requires
                t + 1 == terms,
        ;
        assert(shift_term(p, 0int + (terms - 1) * g, j) == shift_term(p, (t * g) as int, j));
        assert(shift_term(p, g as int + (terms - 1) * g, j) == shift_term(
            p,
            (terms * g) as int,
            j,
        ));
    } else {
        assert(terms * g == 0) by (nonlinear_arith)
            requires
                terms == 0,
        ;
    }
}

/// `X^n` brings `-p[j]` to position `j`.
proof fn lemma_shift_by_length(p: Seq<u32>, j: int)
    requires
        0 <= j < p.len(),
    ensures
        shift_term(p, p.len() as int, j) == -p[j],
{
    let n = p.len() as int;
    lemma_mod_sub_multiples_vanish(j + n, 2 * n);
    lemma_small_mod((j + n) as nat, (2 * n) as nat);
    lemma_mod_sub_multiples_vanish(j, n);
    lemma_small_mod(j as nat, n as nat);
    assert((j - n) % (2 * n) == j + n);
    assert((j - n) % n == j);
    assert(shift_sign(p.len(), n, j) == -1);
    assert(shift_index(p.len(), n, j) == j);
}

/// Multiplying by `v = Σ_{t < n/G} X^{t·G}` and then applying `div_v_inplace`
/// gives the polynomial back: `(1 - X^G) · v = 1 - X^n = 2` in
/// `Z_q[X] / (X^n + 1)`, and `w` is the inverse of 2. Here `s` is `p · v`
/// coefficient by coefficient and `p` holds residues modulo the commit modulus
/// `q`.
pub proof fn law_div_v_undoes_v(p: Seq<u32>, s: Seq<u32>, g: nat, w: nat, q: nat)
    requires
        q > 0,
        p.len() > 0,
        g > 0,
        p.len() % g == 0,
        (2 * w as int) % (q as int) == 1,
        forall|i: int| 0 <= i < p.len() ==> p[i] < q,
        s.len() == p.len(),
        forall|j: int| 0 <= j < p.len() ==> s[j] == mul_by_v_coeff(p, g, j, q),
    ensures
        forall|j: int| 0 <= j < p.len() ==> div_v_coeff(s, g, w, j, q) == p[j],
{
    let n = p.len();
    let qi = q as int;
    let terms = n / g;
    lemma_fundamental_div_mod(n as int, g as int);
    assert(terms * g == n) by (nonlinear_arith)
        requires
            n == g * terms + 0,
    ;
    assert forall|j: int| 0 <= j < n implies div_v_coeff(s, g, w, j, q) == p[j] by {
        let i = shift_index(n, g as int, j);
        lemma_monomial_signed(s, g, j, q);
        lemma_signed_sum_shift(p, g, terms, j);
        lemma_v_sum_signed(p, g, terms, j, q);
        lemma_v_sum_signed(p, g, terms, i, q);
        lemma_signed_sum_telescope(p, g, terms, j);
        let sg = shift_sign(n, g as int, j);
        let a = signed_sum(p, g, 0, terms, j);
        let b = signed_sum(p, g, g as int, terms, j);
        let c = signed_sum(p, g, 0, terms, i);
        let m = monomial_mul_coeff(s, g, j, q);
        // s[j] ≡ a
        assert(s[j] as int == v_sum(p, g, terms, j, q) % qi);
        lemma_mod_twice(v_sum(p, g, terms, j, q), qi);
        assert((s[j] as int) % qi == a % qi);
        // m ≡ sg · s[i] ≡ sg · c == b
        assert(s[i] as int == v_sum(p, g, terms, i, q) % qi);
        lemma_mul_mod_noop_right(sg, v_sum(p, g, terms, i, q), qi);
        lemma_mul_mod_noop_right(sg, c, qi);
        assert(m % qi == b % qi);
        // the ends of the telescope: p[j] and -p[j]
        lemma_small_mod(j as nat, (2 * n) as nat);
        lemma_small_mod(j as nat, n);
        assert(shift_term(p, 0, j) == p[j]);
        lemma_shift_by_length(p, j);
        assert(a - b == 2 * p[j]);
        // (s[j] - m) ≡ 2 p[j], and 2 p[j] w ≡ p[j]
        lemma_sub_mod_noop(s[j] as int, m, qi);
        lemma_sub_mod_noop(a, b, qi);
        assert((s[j] - m) % qi == (2 * p[j]) % qi);
        lemma_mul_mod_noop_left(s[j] - m, w as int, qi);
        lemma_mul_mod_noop_left(2 * p[j], w as int, qi);
        assert((2 * p[j]) * w == p[j] * (2 * w)) by (nonlinear_arith);
        lemma_mul_mod_noop_right(p[j] as int, 2 * w as int, qi);
        lemma_small_mod(p[j] as nat, q);
        lemma_mod_bound(((s[j] - m) % qi) * w, qi);
        lemma_residues_equal(div_v_coeff(s, g, w, j, q), p[j] as int, qi);
    }
}


/// Applies `div_v_inplace` to every whole chunk of `ring_poly_length`
/// coefficients of `final_commit` (the A part and the B part of the folded
/// commit); coefficients past the last whole chunk are kept. `scratch` is as
/// long as a chunk.
pub fn div_v_chunks(
    final_commit: &mut [u32],
    scratch: &mut [u32],
    party_count: usize,
    inv_two_factor: ShoupFactor,
)
    requires
        old(scratch).len() > 0,
        2 * old(scratch).len() <= usize::MAX,
        inv_two_factor.wf(),
    ensures
        final(final_commit).len() == old(final_commit).len(),
        final(scratch).len() == old(scratch).len(),
        forall|c: int, j: int|
            #![trigger final(final_commit)@[c * old(scratch).len() + j]]
            0 <= c < old(final_commit).len() / old(scratch).len() && 0 <= j < old(scratch).len()
                ==> final(final_commit)@[c * old(scratch).len() + j] == div_v_coeff(
                old(final_commit)@.subrange(
                    c * old(scratch).len(),
                    c * old(scratch).len() + old(scratch).len(),
                ),
                party_count as nat,
                inv_two_factor.spec_value(),
                j,
                inv_two_factor.spec_modulus(),
            ),
        forall|k: int|
            (old(final_commit).len() / old(scratch).len()) * old(scratch).len() <= k < old(
                final_commit,
            ).len() ==> final(final_commit)@[k] == old(final_commit)@[k],
{
    let len = scratch.len();
    let count = final_commit.len() / len;
    let ghost f0 = final_commit@;
    let ghost w = inv_two_factor.spec_value();
    let mut c: usize = 0;
    proof {
        lemma_fundamental_div_mod(f0.len() as int, len as int);
        lemma_mul_is_commutative(len as int, count as int);
    }
    while c < count
        invariant
            len == scratch.len(),
            len > 0,
            2 * len <= usize::MAX,
            count == f0.len() / (len as nat),
            count * len <= f0.len(),
            final_commit.len() == f0.len(),
            inv_two_factor.wf(),
            w == inv_two_factor.spec_value(),
            c <= count,
            forall|d: int, j: int|
                #![trigger final_commit@[d * len + j]]
                0 <= d < c && 0 <= j < len ==> final_commit@[d * len + j] == div_v_coeff(
                    f0.subrange(d * len, d * len + len),
                    party_count as nat,
                    w,
                    j,
                    inv_two_factor.spec_modulus(),
                ),
            forall|k: int| c * len <= k < f0.len() ==> final_commit@[k] == f0[k],
        decreases count - c,
    {
        proof {
            lemma_mul_inequality(c as int + 1, count as int, len as int);
            lemma_mul_is_distributive_add_other_way(len as int, c as int, 1);
        }
        let start = c * len;
        let ghost before = final_commit@;
        let mut poly: Vec<u32> = Vec::new();
        let mut j: usize = 0;
        while j < len
            invariant
                start + len <= final_commit.len(),
                j <= len,
                poly@ == final_commit@.subrange(start as int, start + j),
            decreases len - j,
        {
            poly.push(final_commit[start + j]);
            j = j + 1;
            assert(poly@ =~= final_commit@.subrange(start as int, start + j));
        }
        let ghost chunk = poly@;
        proof {
            assert(chunk =~= f0.subrange(start as int, start + len));
        }
        div_v_inplace(poly.as_mut_slice(), scratch, party_count, inv_two_factor);
        let mut t: usize = 0;
        while t < len
            invariant
                start == c * len,
                start + len <= final_commit.len(),
                final_commit.len() == before.len(),
                poly.len() == len,
                t <= len,
                forall|i: int| 0 <= i < t ==> final_commit@[start + i] == poly@[i],
                forall|k: int|
                    0 <= k < before.len() && !(start <= k < start + t) ==> final_commit@[k]
                        == before[k],
            decreases len - t,
        {
            final_commit[start + t] = poly[t];
            t = t + 1;
        }
        proof {
            assert forall|d: int, j: int|
                #![trigger final_commit@[d * len + j]]
                0 <= d < c + 1 && 0 <= j < len implies final_commit@[d * len + j] == div_v_coeff(
                f0.subrange(d * len, d * len + len),
                party_count as nat,
                w,
                j,
                inv_two_factor.spec_modulus(),
            ) by {
                if d < c {
                    lemma_mul_inequality(d + 1, c as int, len as int);
                    lemma_mul_is_distributive_add_other_way(len as int, d, 1);
                    assert(final_commit@[d * len + j] == before[d * len + j]);
                } else {
                    assert(d * len == start);
                    assert(final_commit@[d * len + j] == poly@[j]);
                }
            }
            assert forall|k: int| (c + 1) * len <= k < f0.len() implies final_commit@[k] == f0[k] by {
                assert(final_commit@[k] == before[k]);
            }
        }
        c = c + 1;
    }
}

} // verus!
