# zk_toolkit

Polynomials over the BLS12-381 scalar field and the interactive proofs built on
them, written in Verus: every function of the library carries a contract over
a mathematical model (field elements as integers modulo the field order,
polynomials as coefficient or evaluation sequences, transcripts as byte logs),
and Verus proves the code against it.

Layout of `src/`:

- `field`, `algebra`: the scalar field (arithmetic through `ark_ff`) and the
  ring laws of its integer model.
- `univariate`, `multilinear`, `multivariate`, `composed`, `interface`:
  polynomials in coefficient form, multilinear extensions over the boolean
  hypercube, products of multilinear polynomials, and their traits.
- `low_degree`: a polynomial is fixed by enough values; Lagrange interpolation
  gives it back.
- `evaluation`, `fft`: evaluation domains, the evaluation form of univariate
  polynomials and the radix-2 FFT, with the proof (in `fft`) that it
  evaluates the polynomial at the powers of the root.
- `transcript`: the Fiat-Shamir transcript (Keccak-256 through `sha3`).
- `sumcheck`, `composed`, `virtual_poly`, `virtual_prover`, `virtual_verifier`,
  `ml_sumcheck`: sum-check provers and verifiers, with completeness proofs.
- `zero_check`, `product_check`: the zero-check and the product-check built on
  the sum-check.
- `kzg`: univariate and multilinear KZG commitments over `ark_ec` groups.
- `libra`, `plonk`, `plonk_core`: Libra's book-keeping tables and PLONK's
  data and transcript.
- `assembly`, `program`: the PLONK compiler: equations such as
  `d <== a * c - 45 * a + 987` parsed into gates and coefficient maps, and a
  program's selector and permutation polynomials, public inputs and witness.
- `prover`: the PLONK prover's five rounds and `prove`, with the random
  blinders taken as arguments.

`tests/` runs the library on concrete values.
