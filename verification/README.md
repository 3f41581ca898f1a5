# ssle_core

The arithmetic, encoding and decision logic of a lattice-based single secret
leader election, verified with Verus.

- `src/` is the verified library:
  - `limbs`, `bignum`: multi-limb numbers (little-endian `u64` limbs) and their
    modular arithmetic; products and divisions go through `num::BigUint`.
  - `fast_path`: two-limb (`u128`) modular arithmetic and modulus switching.
  - `parameters`: the commit modulus, Shoup multiplication, and the integer
    choices of every parameter set.
  - `poly`, `fold`: polynomials over `Z_q`, negacyclic monomial multiplication,
    and the folding by `v = Σ X^{t·G}` used to recover the leader's commit.
  - `keys`: the initial accumulator, rotation residues, additive secret-key
    shares and the elected leader.
  - `masks`: the pre-shared masks of distributed decryption.
  - `protocol`, `opening`: the share arithmetic of distributed decryption,
    the aggregation of encoded commits and the decoding of the final commit.
  - `network`: who connects to whom, broadcast targets, the order of share
    exchanges, retry budgets.
- `tests/` runs the library on concrete values.
- `app/` holds what is not verified: sockets, async runtimes, and the calls
  into the lattice-cryptography library, which hand plain values to `src/`.
